//! The array read facade: materialising chunks and rectilinear regions of a
//! chunked array from an abstract store through the codec pipeline.

use crate::chunk_grid::RegularChunkGrid;
use crate::codec::{ChunkRepresentation, CodecError, DataType, FillValue};
use crate::codec_chain::{aa_decode_seq, bb_decode_seq, chain_decode_spec, CodecChain};
use crate::concurrency::CodecOptions;
use crate::store::{ReadableStorageTraits, StorageError};
use crate::store_key::{data_key_chars, ChunkKeyEncoding, NodePath};
use crate::subset::{all_positive, coord_of, linear_index, num_elements, vadd, ArraySubset};
use std::sync::Arc;
use vstd::prelude::*;

verus! {

broadcast use vstd::arithmetic::mul::lemma_mul_is_commutative;

/// An array operation error.
#[derive(Debug)]
pub enum ArrayError {
    /// The chunk coordinates do not name a chunk of the grid.
    InvalidChunkGridIndicesError(Vec<u64>),
    /// The region does not fit the relevant bound.
    InvalidArraySubset(ArraySubset, Vec<u64>),
    /// A decoded chunk does not have the expected byte length.
    UnexpectedChunkDecodedSize(usize, u64),
    /// A codec-layer failure.
    CodecError(CodecError),
    /// A store-layer failure.
    StorageError(StorageError),
}

/// An array creation error.
#[derive(Debug)]
pub enum ArrayCreateError {
    /// No metadata document was found for the node.
    MissingMetadata,
    /// The node's metadata cannot describe this array.
    InvalidMetadata(String),
    /// The fill value does not suit the data type, or the array's byte size
    /// cannot be addressed.
    InvalidFillValue(String),
    /// A store-layer failure.
    StorageError(StorageError),
}

/// A chunked n-dimensional array read from a store: the descriptor is
/// immutable after construction.
pub struct Array<TStorage> {
    pub storage: Arc<TStorage>,
    pub path: NodePath,
    pub shape: Vec<u64>,
    pub data_type: DataType,
    pub fill_value: FillValue,
    pub chunk_grid: RegularChunkGrid,
    pub chunk_key_encoding: ChunkKeyEncoding,
    pub codecs: CodecChain,
}

/// The pattern `fill` repeated once per element.
pub open spec fn repeat_fill(fill: Seq<u8>, count: nat) -> Seq<u8> {
    Seq::new(count * fill.len(), |b: int| fill[b % fill.len() as int])
}

/// Repeat a fill pattern once per element.
pub fn repeat_pattern(fill: &Vec<u8>, count: usize) -> (r: Vec<u8>)
    requires
        1 <= fill@.len(),
        count * fill@.len() <= usize::MAX,
    ensures
        r@ == repeat_fill(fill@, count as nat),
{
    let es = fill.len();
    let total = count * es;
    let mut out: Vec<u8> = Vec::new();
    for t in 0..total
        invariant
            es == fill@.len(),
            1 <= es,
            total == count * es,
            out@.len() == t,
            forall|b: int| 0 <= b < t ==> out@[b] == fill@[b % es as int],
    {
        let v = fill[t % es];
        out.push(v);
    }
    proof {
        assert(out@ =~= repeat_fill(fill@, count as nat));
    }
    out
}

impl<TStorage: ReadableStorageTraits> Array<TStorage> {
    /// The descriptor is consistent: shapes and grid agree, the fill value
    /// is one element wide, and every buffer this array needs is
    /// addressable.
    pub open spec fn wf(&self) -> bool {
        &&& self.path.wf()
        &&& self.chunk_key_encoding.wf()
        &&& 1 <= self.shape@.len()
        &&& self.chunk_grid.wf()
        &&& self.chunk_grid.array_shape@ == self.shape@
        &&& self.fill_value.0@.len() == self.data_type.spec_size()
        &&& num_elements(self.shape@) * self.data_type.spec_size() <= usize::MAX
        &&& self.codecs.wf(self.shape@.len())
        &&& self.storage.inv()
    }

    /// The size of one element in bytes.
    pub open spec fn spec_es(&self) -> nat {
        self.data_type.spec_size()
    }

    /// The number of dimensions.
    pub open spec fn spec_dim(&self) -> nat {
        self.shape@.len()
    }

    /// The chunk coordinates name a chunk of the grid.
    pub open spec fn chunk_indices_valid(&self, k: Seq<u64>) -> bool {
        &&& k.len() == self.spec_dim()
        &&& forall|i: int| 0 <= i < k.len() ==> (#[trigger] k[i]) < self.chunk_grid.spec_grid_shape()[i]
    }

    /// The raw stored bytes of chunk `k`, or nothing when its key is absent.
    pub open spec fn stored_chunk(&self, k: Seq<u64>) -> Option<Seq<u8>> {
        let key = data_key_chars(self.path@, k, self.chunk_key_encoding.separator);
        if self.storage.view_map().contains_key(key) {
            Some(self.storage.view_map()[key])
        } else {
            None
        }
    }

    /// The bytes chunk `k` contributes to reads: its decoded bytes when the
    /// chunk is stored and decodes, the fill pattern when it is absent, and
    /// nothing when decoding fails.
    pub open spec fn effective_chunk(&self, k: Seq<u64>, validate: bool) -> Option<Seq<u8>> {
        let extents = self.chunk_grid.spec_chunk_extents(k);
        match self.stored_chunk(k) {
            Some(raw) => chain_decode_spec(&self.codecs, raw, extents, self.spec_es(), validate),
            None => Some(repeat_fill(self.fill_value.0@, num_elements(extents))),
        }
    }

    /// The bytes chunk `k` contributes to reads along the partial-decode
    /// path, which strips trailers without verifying checksums: the stored
    /// blob minus its trailers, undone through the array-to-array codecs;
    /// the fill pattern when the chunk is absent; nothing when the stored
    /// blob cannot have the chunk's exact byte size.
    pub open spec fn unverified_chunk(&self, k: Seq<u64>) -> Option<Seq<u8>> {
        let extents = self.chunk_grid.spec_chunk_extents(k);
        let m = self.codecs.bytes_to_bytes@.len();
        match self.stored_chunk(k) {
            Some(raw) => if raw.len() >= 4 * m && raw.len() - 4 * m == num_elements(extents)
                * self.spec_es() {
                Some(
                    aa_decode_seq(
                        self.codecs.array_to_array@,
                        raw.subrange(0, raw.len() - 4 * m),
                        extents,
                        self.spec_es(),
                    ),
                )
            } else {
                None
            },
            None => Some(repeat_fill(self.fill_value.0@, num_elements(extents))),
        }
    }

    /// The bytes of the element at array position `g`: the matching element
    /// of the owning chunk's bytes.
    pub open spec fn element_bytes(&self, g: Seq<u64>) -> Seq<u8> {
        let k = self.chunk_grid.spec_owning_chunk(g);
        let extents = self.chunk_grid.spec_chunk_extents(k);
        let c = self.chunk_grid.spec_within_chunk(g);
        Seq::new(
            self.spec_es(),
            |o: int| self.unverified_chunk(k)->0[linear_index(c, extents) * self.spec_es() + o],
        )
    }

    /// The bytes of the region `(start, shape)` of the array: element after
    /// element in row-major order, each from its owning chunk.
    pub open spec fn region_result(&self, start: Seq<u64>, shape: Seq<u64>) -> Seq<u8> {
        Seq::new(
            num_elements(shape) * self.spec_es(),
            |b: int| self.element_bytes(
                vadd(start, coord_of(b / self.spec_es() as int, shape)),
            )[b % self.spec_es() as int],
        )
    }

    /// Every chunk that the region `(start, shape)` touches has bytes to
    /// contribute.
    pub open spec fn region_decodes(&self, start: Seq<u64>, shape: Seq<u64>) -> bool {
        forall|g: Seq<u64>| (g.len() == self.spec_dim() && (forall|i: int| 0 <= i < g.len()
            ==> start[i] <= #[trigger] g[i] < start[i] + shape[i]))
            ==> (#[trigger] self.unverified_chunk(self.chunk_grid.spec_owning_chunk(g))) is Some
    }

    /// Create an array descriptor from its parts, validating them.
    pub fn new(
        storage: Arc<TStorage>,
        path: NodePath,
        shape: Vec<u64>,
        data_type: DataType,
        fill_value: FillValue,
        chunk_shape: Vec<u64>,
        chunk_key_encoding: ChunkKeyEncoding,
        codecs: CodecChain,
    ) -> (r: Result<Self, ArrayCreateError>)
        requires
            path.wf(),
            chunk_key_encoding.wf(),
            (*storage).inv(),
        ensures
            r matches Ok(a) ==> {
                &&& a.wf()
                &&& a.path@ == path@
                &&& a.shape@ == shape@
                &&& a.data_type == data_type
                &&& a.fill_value.0@ == fill_value.0@
                &&& a.chunk_grid.array_shape@ == shape@
                &&& a.chunk_grid.chunk_shape@ == chunk_shape@
                &&& a.chunk_key_encoding == chunk_key_encoding
                &&& a.codecs == codecs
                &&& a.storage == storage
            },
            r is Ok <==> {
                &&& 1 <= shape@.len()
                &&& shape@.len() == chunk_shape@.len()
                &&& all_positive(chunk_shape@)
                &&& fill_value.0@.len() == data_type.spec_size()
                &&& num_elements(shape@) * data_type.spec_size() <= usize::MAX
                &&& codecs.wf(shape@.len())
            },
    {
        if shape.len() == 0 || shape.len() != chunk_shape.len() {
            return Err(ArrayCreateError::InvalidMetadata(String::new()));
        }
        let n = chunk_shape.len();
        for i in 0..n
            invariant
                n == chunk_shape@.len(),
                forall|k: int| 0 <= k < i ==> 1 <= chunk_shape@[k],
        {
            if chunk_shape[i] == 0 {
                return Err(ArrayCreateError::InvalidMetadata(String::new()));
            }
        }
        assert(all_positive(chunk_shape@));
        if fill_value.0.len() != data_type.size() {
            return Err(ArrayCreateError::InvalidFillValue(String::new()));
        }
        let es = data_type.size();
        let ne = match crate::codec::checked_product(&shape) {
            Some(p) => p,
            None => {
                proof {
                    assert(num_elements(shape@) * data_type.spec_size() > usize::MAX)
                        by (nonlinear_arith)
                        requires
                            num_elements(shape@) > u64::MAX,
                            data_type.spec_size() >= 1,
                            usize::MAX <= u64::MAX,
                    ;
                }
                return Err(ArrayCreateError::InvalidFillValue(String::new()));
            },
        };
        if ne > 0 && es as u64 > u64::MAX / ne {
            proof {
                let q = u64::MAX as int / ne as int;
                vstd::arithmetic::div_mod::lemma_fundamental_div_mod(u64::MAX as int, ne as int);
                crate::chunk_grid::lemma_div_nonneg(u64::MAX as int, ne as int);
                assert(ne as int * es as int > u64::MAX) by (nonlinear_arith)
                    requires
                        es as int > q,
                        u64::MAX as int == ne as int * q + (u64::MAX as int % ne as int),
                        0 <= (u64::MAX as int % ne as int) < ne as int,
                        0 <= q,
                        1 <= ne as int,
                ;
            }
            return Err(ArrayCreateError::InvalidFillValue(String::new()));
        }
        proof {
            if ne > 0 {
                let q = u64::MAX as int / ne as int;
                vstd::arithmetic::div_mod::lemma_fundamental_div_mod(u64::MAX as int, ne as int);
                crate::chunk_grid::lemma_div_nonneg(u64::MAX as int, ne as int);
                assert(ne as int * es as int <= u64::MAX) by (nonlinear_arith)
                    requires
                        es as int <= q,
                        u64::MAX as int == ne as int * q + (u64::MAX as int % ne as int),
                        0 <= (u64::MAX as int % ne as int) < ne as int,
                        1 <= ne as int,
                        0 <= es as int,
                ;
            } else {
                assert(0int * es as int == 0) by (nonlinear_arith);
            }
        }
        let total = ne * es as u64;
        if total > usize::MAX as u64 {
            return Err(ArrayCreateError::InvalidFillValue(String::new()));
        }
        let codecs_ok = check_codecs(&codecs, shape.len());
        if !codecs_ok {
            return Err(ArrayCreateError::InvalidMetadata(String::new()));
        }
        let grid = RegularChunkGrid { array_shape: shape, chunk_shape };
        let shape2 = crate::subset::copy_u64_vec(&grid.array_shape);
        Ok(
            Array {
                storage,
                path,
                shape: shape2,
                data_type,
                fill_value,
                chunk_grid: grid,
                chunk_key_encoding,
                codecs,
            },
        )
    }

    /// The array's extents.
    pub fn shape(&self) -> (r: &Vec<u64>)
        ensures
            r@ == self.shape@,
    {
        &self.shape
    }

    /// The number of dimensions.
    pub fn dimensionality(&self) -> (r: usize)
        ensures
            r == self.spec_dim(),
    {
        self.shape.len()
    }

    /// The array's data type.
    pub fn data_type(&self) -> (r: &DataType)
        ensures
            *r == self.data_type,
    {
        &self.data_type
    }

    /// The array's fill value.
    pub fn fill_value(&self) -> (r: &FillValue)
        ensures
            r.0@ == self.fill_value.0@,
    {
        &self.fill_value
    }

    /// The representation of chunk `k`: its truncated extents with the
    /// array's data type and fill value.
    pub fn chunk_array_representation(&self, chunk_indices: &Vec<u64>) -> (r: Result<
        ChunkRepresentation,
        ArrayError,
    >)
        requires
            self.wf(),
        ensures
            r is Ok <==> self.chunk_indices_valid(chunk_indices@),
            r matches Ok(c) ==> {
                &&& c.wf()
                &&& c.shape@ == self.chunk_grid.spec_chunk_extents(chunk_indices@)
                &&& c.data_type == self.data_type
                &&& c.fill_value.0@ == self.fill_value.0@
            },
            r matches Err(e) ==> e matches ArrayError::InvalidChunkGridIndicesError(v) && v@
                == chunk_indices@,
    {
        if chunk_indices.len() != self.shape.len() {
            return Err(
                ArrayError::InvalidChunkGridIndicesError(
                    crate::subset::copy_u64_vec(chunk_indices),
                ),
            );
        }
        let grid_shape = self.chunk_grid.grid_shape();
        let n = chunk_indices.len();
        for i in 0..n
            invariant
                n == chunk_indices@.len() == grid_shape@.len(),
                grid_shape@ == self.chunk_grid.spec_grid_shape(),
                forall|t: int| 0 <= t < i ==> (#[trigger] chunk_indices@[t])
                    < self.chunk_grid.spec_grid_shape()[t],
        {
            if chunk_indices[i] >= grid_shape[i] {
                return Err(
                    ArrayError::InvalidChunkGridIndicesError(
                        crate::subset::copy_u64_vec(chunk_indices),
                    ),
                );
            }
        }
        let subset = self.chunk_grid.chunk_subset(chunk_indices);
        let extents = crate::subset::copy_u64_vec(subset.shape());
        proof {
            crate::subset::lemma_num_elements_monotone(extents@, self.shape@);
            crate::codec::lemma_chunk_counts(self.shape@, self.spec_es());
            vstd::arithmetic::mul::lemma_mul_upper_bound(
                num_elements(extents@) as int,
                num_elements(self.shape@) as int,
                self.spec_es() as int,
                self.spec_es() as int,
            );
        }
        match ChunkRepresentation::new(extents, self.data_type, self.fill_value.clone()) {
            Ok(c) => Ok(c),
            Err(_) => Err(
                ArrayError::InvalidChunkGridIndicesError(
                    crate::subset::copy_u64_vec(chunk_indices),
                ),
            ),
        }
    }

    /// Retrieve and decode one chunk, or report that the chunk has no key
    /// in the store.
    pub fn retrieve_chunk_if_exists_opt(&self, chunk_indices: &Vec<u64>, options: &CodecOptions) -> (r:
        Result<Option<Vec<u8>>, ArrayError>)
        requires
            self.wf(),
        ensures
            r is Err && !self.chunk_indices_valid(chunk_indices@) ==> (r matches Err(
                ArrayError::InvalidChunkGridIndicesError(v),
            ) && v@ == chunk_indices@),
            !self.chunk_indices_valid(chunk_indices@) ==> r is Err,
            r matches Ok(Some(v)) ==> {
                &&& self.chunk_indices_valid(chunk_indices@)
                &&& self.stored_chunk(chunk_indices@) is Some
                &&& chain_decode_spec(
                    &self.codecs,
                    self.stored_chunk(chunk_indices@)->0,
                    self.chunk_grid.spec_chunk_extents(chunk_indices@),
                    self.spec_es(),
                    options.validate_checksums,
                ) == Some(v@)
            },
            r matches Ok(None) ==> self.chunk_indices_valid(chunk_indices@) && self.stored_chunk(
                chunk_indices@,
            ) is None,
            (self.chunk_indices_valid(chunk_indices@) && self.stored_chunk(chunk_indices@) is Some
                && chain_decode_spec(
                &self.codecs,
                self.stored_chunk(chunk_indices@)->0,
                self.chunk_grid.spec_chunk_extents(chunk_indices@),
                self.spec_es(),
                options.validate_checksums,
            ) is None) ==> r is Err,
            (self.chunk_indices_valid(chunk_indices@) && self.effective_chunk(
                chunk_indices@,
                options.validate_checksums,
            ) is Some) ==> (r is Ok || r matches Err(ArrayError::StorageError(_))),
            (self.chunk_indices_valid(chunk_indices@) && (self.stored_chunk(chunk_indices@)
                matches Some(raw) && bb_decode_seq(
                self.codecs.bytes_to_bytes@.reverse(),
                raw,
                options.validate_checksums,
            ) is None)) ==> ((r matches Err(ArrayError::CodecError(e)) && e is InvalidChecksum) || r
                matches Err(ArrayError::StorageError(_))),
            (self.chunk_indices_valid(chunk_indices@) && (self.stored_chunk(chunk_indices@)
                matches Some(raw) && (bb_decode_seq(
                self.codecs.bytes_to_bytes@.reverse(),
                raw,
                options.validate_checksums,
            ) matches Some(mid) && mid.len() != num_elements(
                self.chunk_grid.spec_chunk_extents(chunk_indices@),
            ) * self.spec_es()))) ==> ((r matches Err(ArrayError::CodecError(e)) && (e matches
                crate::codec::CodecError::UnexpectedChunkDecodedSize(g, x) && x == num_elements(
                self.chunk_grid.spec_chunk_extents(chunk_indices@),
            ) * self.spec_es())) || r matches Err(ArrayError::StorageError(_))),
    {
        let chunk_representation = match self.chunk_array_representation(chunk_indices) {
            Ok(c) => c,
            Err(e) => {
                return Err(e);
            },
        };
        let encoded = match crate::store::retrieve_chunk(
            &*self.storage,
            &self.path,
            chunk_indices,
            &self.chunk_key_encoding,
        ) {
            Ok(v) => v,
            Err(e) => {
                return Err(ArrayError::StorageError(e));
            },
        };
        match encoded {
            Some(raw) => {
                proof {
                    assert(self.codecs.wf(chunk_representation.shape@.len())) by {
                        assert(chunk_representation.shape@.len() == self.spec_dim());
                    }
                }
                match self.codecs.decode(raw, &chunk_representation, options) {
                    Ok(decoded) => Ok(Some(decoded)),
                    Err(e) => Err(ArrayError::CodecError(e)),
                }
            },
            None => Ok(None),
        }
    }

    /// Retrieve and decode one chunk; an absent chunk yields the fill value
    /// repeated over the chunk.
    pub fn retrieve_chunk_opt(&self, chunk_indices: &Vec<u64>, options: &CodecOptions) -> (r: Result<
        Vec<u8>,
        ArrayError,
    >)
        requires
            self.wf(),
        ensures
            !self.chunk_indices_valid(chunk_indices@) ==> r is Err,
            r matches Ok(v) ==> self.chunk_indices_valid(chunk_indices@) && self.effective_chunk(
                chunk_indices@,
                options.validate_checksums,
            ) == Some(v@),
            (self.chunk_indices_valid(chunk_indices@) && self.effective_chunk(
                chunk_indices@,
                options.validate_checksums,
            ) is None) ==> r is Err,
            (self.chunk_indices_valid(chunk_indices@) && self.effective_chunk(
                chunk_indices@,
                options.validate_checksums,
            ) is Some) ==> (r is Ok || r matches Err(ArrayError::StorageError(_))),
    {
        match self.retrieve_chunk_if_exists_opt(chunk_indices, options) {
            Ok(Some(v)) => Ok(v),
            Ok(None) => {
                let chunk_representation = match self.chunk_array_representation(chunk_indices) {
                    Ok(c) => c,
                    Err(e) => {
                        return Err(e);
                    },
                };
                proof {
                    crate::codec::lemma_chunk_counts(
                        chunk_representation.shape@,
                        self.spec_es(),
                    );
                }
                let count = crate::subset::product_u64(&chunk_representation.shape) as usize;
                proof {
                    assert(count * self.fill_value.0@.len() == chunk_representation.spec_size_bytes());
                }
                Ok(repeat_pattern(&self.fill_value.0, count))
            },
            Err(e) => Err(e),
        }
    }

    /// Retrieve and decode one chunk with sequential options.
    pub fn retrieve_chunk(&self, chunk_indices: &Vec<u64>) -> (r: Result<Vec<u8>, ArrayError>)
        requires
            self.wf(),
        ensures
            !self.chunk_indices_valid(chunk_indices@) ==> r is Err,
            r matches Ok(v) ==> self.chunk_indices_valid(chunk_indices@) && self.effective_chunk(
                chunk_indices@,
                true,
            ) == Some(v@),
            (self.chunk_indices_valid(chunk_indices@) && self.effective_chunk(chunk_indices@, true)
                is None) ==> r is Err,
    {
        let options = CodecOptions::new(1);
        self.retrieve_chunk_opt(chunk_indices, &options)
    }

    /// Retrieve one chunk if it exists, with sequential options.
    pub fn retrieve_chunk_if_exists(&self, chunk_indices: &Vec<u64>) -> (r: Result<
        Option<Vec<u8>>,
        ArrayError,
    >)
        requires
            self.wf(),
        ensures
            r matches Ok(Some(v)) ==> {
                &&& self.chunk_indices_valid(chunk_indices@)
                &&& self.stored_chunk(chunk_indices@) is Some
                &&& chain_decode_spec(
                    &self.codecs,
                    self.stored_chunk(chunk_indices@)->0,
                    self.chunk_grid.spec_chunk_extents(chunk_indices@),
                    self.spec_es(),
                    true,
                ) == Some(v@)
            },
            r matches Ok(None) ==> self.chunk_indices_valid(chunk_indices@) && self.stored_chunk(
                chunk_indices@,
            ) is None,
            !self.chunk_indices_valid(chunk_indices@) ==> r is Err,
    {
        let options = CodecOptions::new(1);
        self.retrieve_chunk_if_exists_opt(chunk_indices, &options)
    }

    /// Retrieve the decoded bytes of one region within one chunk, through
    /// the partial-decode path: the trailer bytes are never read and no
    /// checksum is verified.
    pub fn retrieve_chunk_subset_opt(
        &self,
        chunk_indices: &Vec<u64>,
        chunk_subset: &ArraySubset,
        options: &CodecOptions,
    ) -> (r: Result<Vec<u8>, ArrayError>)
        requires
            self.wf(),
        ensures
            !self.chunk_indices_valid(chunk_indices@) ==> (r matches Err(
                ArrayError::InvalidChunkGridIndicesError(ci),
            ) && ci@ == chunk_indices@),
            (self.chunk_indices_valid(chunk_indices@) && !(chunk_subset.wf()
                && chunk_subset.spec_inbounds(self.chunk_grid.spec_chunk_extents(chunk_indices@))))
                ==> (r matches Err(ArrayError::InvalidArraySubset(sub, b)) && sub.start@
                == chunk_subset.start@ && sub.shape@ == chunk_subset.shape@ && b@
                == self.chunk_grid.spec_chunk_extents(chunk_indices@)),
            r matches Ok(v) ==> {
                &&& self.chunk_indices_valid(chunk_indices@)
                &&& chunk_subset.wf()
                &&& chunk_subset.spec_inbounds(
                    self.chunk_grid.spec_chunk_extents(chunk_indices@),
                )
                &&& (num_elements(chunk_subset.shape@) != 0 ==> self.unverified_chunk(
                    chunk_indices@,
                ) is Some)
                &&& v@ == crate::subset::project(
                    self.unverified_chunk(chunk_indices@)->0,
                    self.chunk_grid.spec_chunk_extents(chunk_indices@),
                    chunk_subset.start@,
                    chunk_subset.shape@,
                    self.spec_es(),
                )
            },
            (self.chunk_indices_valid(chunk_indices@) && chunk_subset.wf()
                && chunk_subset.spec_inbounds(self.chunk_grid.spec_chunk_extents(chunk_indices@))
                && num_elements(chunk_subset.shape@) == 0) ==> r is Ok,
            (self.chunk_indices_valid(chunk_indices@) && chunk_subset.wf()
                && chunk_subset.spec_inbounds(self.chunk_grid.spec_chunk_extents(chunk_indices@))
                && num_elements(chunk_subset.shape@) != 0 && self.unverified_chunk(chunk_indices@)
                is None) ==> ((r matches Err(ArrayError::UnexpectedChunkDecodedSize(g, x)) && x
                == num_elements(self.chunk_grid.spec_chunk_extents(chunk_indices@))
                * self.spec_es()) || r matches Err(ArrayError::StorageError(_))),
            (self.chunk_indices_valid(chunk_indices@) && chunk_subset.wf()
                && chunk_subset.spec_inbounds(self.chunk_grid.spec_chunk_extents(chunk_indices@))
                && self.unverified_chunk(chunk_indices@) is Some) ==> (r is Ok || r matches Err(
                ArrayError::StorageError(_),
            )),
    {
        let rep = match self.chunk_array_representation(chunk_indices) {
            Ok(c) => c,
            Err(e) => {
                return Err(e);
            },
        };
        if chunk_subset.start().len() != chunk_subset.shape().len() || !chunk_subset.inbounds(
            rep.shape(),
        ) {
            return Err(
                ArrayError::InvalidArraySubset(
                    chunk_subset.clone(),
                    crate::subset::copy_u64_vec(rep.shape()),
                ),
            );
        }
        proof {
            crate::subset::lemma_num_elements_monotone(chunk_subset.shape@, rep.shape@);
            crate::codec::lemma_chunk_counts(rep.shape@, self.spec_es());
            vstd::arithmetic::mul::lemma_mul_upper_bound(
                num_elements(chunk_subset.shape@) as int,
                num_elements(rep.shape@) as int,
                self.spec_es() as int,
                self.spec_es() as int,
            );
        }
        let count = crate::subset::product_u64(chunk_subset.shape()) as usize;
        if count == 0 {
            // a zero-element request: an empty answer, and no store call
            let v: Vec<u8> = Vec::new();
            proof {
                assert(num_elements(chunk_subset.shape@) * self.spec_es() == 0)
                    by (nonlinear_arith)
                    requires
                        num_elements(chunk_subset.shape@) == 0,
                ;
                assert(v@ =~= crate::subset::project(
                    self.unverified_chunk(chunk_indices@)->0,
                    self.chunk_grid.spec_chunk_extents(chunk_indices@),
                    chunk_subset.start@,
                    chunk_subset.shape@,
                    self.spec_es(),
                ));
            }
            return Ok(v);
        }
        let key = crate::store_key::data_key(&self.path, chunk_indices, &self.chunk_key_encoding);
        let m = self.codecs.bytes_to_bytes.len();
        let sz = rep.size_bytes();
        let es = self.data_type.size();
        match self.storage.size_key(&key) {
            Err(e) => Err(ArrayError::StorageError(e)),
            Ok(None) => {
                // absent chunk: the fill pattern over the requested region
                let v = repeat_pattern(&self.fill_value.0, count);
                proof {
                    lemma_project_repeat(
                        self.fill_value.0@,
                        rep.shape@,
                        chunk_subset.start@,
                        chunk_subset.shape@,
                        self.spec_es(),
                    );
                }
                Ok(v)
            },
            Ok(Some(raw_len)) => {
                // the stored blob must hold the trailers and exactly the
                // chunk's bytes; `raw_len >= 4 m` is tested through the
                // quotient so the product cannot overflow
                proof {
                    vstd::arithmetic::div_mod::lemma_fundamental_div_mod(raw_len as int, 4int);
                    crate::chunk_grid::lemma_div_nonneg(raw_len as int, 4int);
                }
                if (m as u64) > raw_len / 4 {
                    proof {
                        assert(raw_len < 4 * (m as int)) by (nonlinear_arith)
                            requires
                                raw_len as int == 4 * (raw_len as int / 4) + (raw_len as int % 4),
                                0 <= (raw_len as int % 4) < 4,
                                (raw_len as int / 4) < m as int,
                                0 <= raw_len as int / 4,
                        ;
                    }
                    return Err(
                        ArrayError::UnexpectedChunkDecodedSize(
                            #[verifier::truncate] (raw_len as usize),
                            sz as u64,
                        ),
                    );
                }
                proof {
                    assert(4 * (m as int) <= raw_len) by (nonlinear_arith)
                        requires
                            raw_len as int == 4 * (raw_len as int / 4) + (raw_len as int % 4),
                            0 <= (raw_len as int % 4),
                            m as int <= raw_len as int / 4,
                    ;
                }
                let trailer = 4 * (m as u64);
                if raw_len - trailer != sz as u64 {
                    return Err(
                        ArrayError::UnexpectedChunkDecodedSize(
                            #[verifier::truncate] (raw_len as usize),
                            sz as u64,
                        ),
                    );
                }
                let mut ranges: Vec<crate::byte_range::ByteRange> = Vec::new();
                ranges.push(crate::byte_range::ByteRange::FromStart(0, Some(sz as u64)));
                match self.storage.get_partial_values_key(&key, &ranges) {
                    Err(e) => Err(ArrayError::StorageError(e)),
                    Ok(None) => {
                        // the store's view is fixed for the call, so a key
                        // whose size was just read cannot be absent
                        proof {
                            assert(false);
                        }
                        Err(ArrayError::StorageError(StorageError::Other(String::new())))
                    },
                    Ok(Some(mut v)) => {
                        let mid = v.pop().unwrap();
                        let ghost raw = self.storage.view_map()[key@];
                        proof {
                            assert(ranges@[0] == crate::byte_range::ByteRange::FromStart(
                                0u64,
                                Some(sz as u64),
                            ));
                            assert(mid@ == crate::byte_range::extract_range_spec(raw, ranges@[0]));
                            assert(mid@ =~= raw.subrange(0, sz as int));
                            assert(raw.subrange(0, sz as int) =~= raw.subrange(
                                0,
                                raw.len() - 4 * m,
                            ));
                        }
                        let decoded = match crate::codec_chain::aa_decode_from(
                            &self.codecs.array_to_array,
                            0,
                            mid,
                            rep.clone(),
                            options,
                        ) {
                            Ok(d) => d,
                            Err(e) => {
                                return Err(ArrayError::CodecError(e));
                            },
                        };
                        proof {
                            assert(self.codecs.array_to_array@.skip(0)
                                =~= self.codecs.array_to_array@);
                            crate::codec_chain::lemma_aa_decode_len(
                                self.codecs.array_to_array@,
                                raw.subrange(0, raw.len() - 4 * m),
                                rep.shape@,
                                self.spec_es(),
                            );
                        }
                        let out = crate::subset::extract_window(
                            &decoded,
                            rep.shape(),
                            chunk_subset,
                            es,
                        );
                        Ok(out)
                    },
                }
            },
        }
    }

    /// Retrieve the decoded bytes of one region within one chunk, with
    /// sequential options.
    pub fn retrieve_chunk_subset(&self, chunk_indices: &Vec<u64>, chunk_subset: &ArraySubset) -> (r:
        Result<Vec<u8>, ArrayError>)
        requires
            self.wf(),
        ensures
            !self.chunk_indices_valid(chunk_indices@) ==> (r matches Err(
                ArrayError::InvalidChunkGridIndicesError(ci),
            ) && ci@ == chunk_indices@),
            (self.chunk_indices_valid(chunk_indices@) && !(chunk_subset.wf()
                && chunk_subset.spec_inbounds(self.chunk_grid.spec_chunk_extents(chunk_indices@))))
                ==> (r matches Err(ArrayError::InvalidArraySubset(sub, b)) && sub.start@
                == chunk_subset.start@ && sub.shape@ == chunk_subset.shape@ && b@
                == self.chunk_grid.spec_chunk_extents(chunk_indices@)),
            r matches Ok(v) ==> {
                &&& self.chunk_indices_valid(chunk_indices@)
                &&& chunk_subset.wf()
                &&& chunk_subset.spec_inbounds(
                    self.chunk_grid.spec_chunk_extents(chunk_indices@),
                )
                &&& (num_elements(chunk_subset.shape@) != 0 ==> self.unverified_chunk(
                    chunk_indices@,
                ) is Some)
                &&& v@ == crate::subset::project(
                    self.unverified_chunk(chunk_indices@)->0,
                    self.chunk_grid.spec_chunk_extents(chunk_indices@),
                    chunk_subset.start@,
                    chunk_subset.shape@,
                    self.spec_es(),
                )
            },
            (self.chunk_indices_valid(chunk_indices@) && chunk_subset.wf()
                && chunk_subset.spec_inbounds(self.chunk_grid.spec_chunk_extents(chunk_indices@))
                && num_elements(chunk_subset.shape@) == 0) ==> r is Ok,
            (self.chunk_indices_valid(chunk_indices@) && chunk_subset.wf()
                && chunk_subset.spec_inbounds(self.chunk_grid.spec_chunk_extents(chunk_indices@))
                && self.unverified_chunk(chunk_indices@) is Some) ==> (r is Ok || r matches Err(
                ArrayError::StorageError(_),
            )),
    {
        let options = CodecOptions::new(1);
        self.retrieve_chunk_subset_opt(chunk_indices, chunk_subset, &options)
    }

    /// Unfold one byte of a region result: position, element and offset.
    proof fn lemma_region_byte(&self, rstart: Seq<u64>, rshape: Seq<u64>, j: int)
        requires
            self.wf(),
            rstart.len() == self.spec_dim(),
            rshape.len() == self.spec_dim(),
            forall|i: int| 0 <= i < rshape.len() ==> rstart[i] + rshape[i] <= self.shape@[i],
            0 <= j < num_elements(rshape) * self.spec_es(),
        ensures
            ({
                let es = self.spec_es() as int;
                let p = coord_of(j / es, rshape);
                let g = vadd(rstart, p);
                &&& crate::subset::valid_coord(p, rshape)
                &&& g.len() == self.spec_dim()
                &&& (forall|i: int| 0 <= i < g.len() ==> rstart[i] <= #[trigger] g[i] < rstart[i]
                    + rshape[i])
                &&& (forall|i: int| 0 <= i < g.len() ==> #[trigger] g[i] < self.shape@[i])
                &&& 0 <= j % es < es
                &&& self.region_result(rstart, rshape)[j] == self.element_bytes(g)[j % es]
            }),
    {
        let es = self.spec_es() as int;
        vstd::arithmetic::div_mod::lemma_fundamental_div_mod(j, es);
        let e = j / es;
        let o = j % es;
        assert(0 <= e < num_elements(rshape)) by (nonlinear_arith)
            requires
                j == e * es + o,
                0 <= o < es,
                0 <= j,
                j < num_elements(rshape) * es,
                1 <= es,
        ;
        crate::subset::lemma_coord_of_roundtrip(e, rshape);
        let p = coord_of(e, rshape);
        let g = vadd(rstart, p);
        assert forall|i: int| 0 <= i < g.len() implies rstart[i] <= #[trigger] g[i] < rstart[i]
            + rshape[i] by {
            assert(p[i] < rshape[i]);
        }
    }

    /// A position of the array is owned by exactly the chunk whose region
    /// holds it, and sits inside that chunk at its within-chunk coordinate.
    proof fn lemma_owning(&self, g: Seq<u64>, k: Seq<u64>)
        requires
            self.wf(),
            g.len() == self.spec_dim(),
            forall|i: int| 0 <= i < g.len() ==> (#[trigger] g[i]) < self.shape@[i],
            self.chunk_indices_valid(k),
        ensures
            self.chunk_indices_valid(self.chunk_grid.spec_owning_chunk(g)),
            (self.chunk_grid.spec_owning_chunk(g) == k <==> (forall|i: int| 0 <= i < g.len()
                ==> self.chunk_grid.spec_chunk_origin(k)[i] <= #[trigger] g[i]
                    < self.chunk_grid.spec_chunk_origin(k)[i] + self.chunk_grid.spec_chunk_extents(
                    k,
                )[i])),
            self.chunk_grid.spec_owning_chunk(g) == k ==> (self.chunk_grid.spec_within_chunk(g)
                =~= crate::subset::vsub(g, self.chunk_grid.spec_chunk_origin(k))
                && crate::subset::valid_coord(
                self.chunk_grid.spec_within_chunk(g),
                self.chunk_grid.spec_chunk_extents(k),
            )),
    {
        let dim = self.spec_dim() as int;
        let own = self.chunk_grid.spec_owning_chunk(g);
        assert forall|i: int| 0 <= i < dim implies (#[trigger] own[i])
            < self.chunk_grid.spec_grid_shape()[i] by {
            crate::chunk_grid::lemma_ceil_div_split(
                self.shape@[i] as int,
                self.chunk_grid.chunk_shape@[i] as int,
            );
            crate::chunk_grid::lemma_chunk_owner_axis(
                self.shape@[i] as int,
                self.chunk_grid.chunk_shape@[i] as int,
                g[i] as int,
            );
        }
        if own == k {
            assert forall|i: int|
                0 <= i < dim implies self.chunk_grid.spec_chunk_origin(k)[i] <= #[trigger] g[i]
                < self.chunk_grid.spec_chunk_origin(k)[i] + self.chunk_grid.spec_chunk_extents(
                k,
            )[i] by {
                crate::chunk_grid::lemma_chunk_owner_axis(
                    self.shape@[i] as int,
                    self.chunk_grid.chunk_shape@[i] as int,
                    g[i] as int,
                );
                assert(own[i] == k[i]);
            }
            assert forall|i: int| 0 <= i < dim implies self.chunk_grid.spec_within_chunk(g)[i]
                == crate::subset::vsub(g, self.chunk_grid.spec_chunk_origin(k))[i] by {
                crate::chunk_grid::lemma_chunk_owner_axis(
                    self.shape@[i] as int,
                    self.chunk_grid.chunk_shape@[i] as int,
                    g[i] as int,
                );
                assert(own[i] == k[i]);
            }
            assert forall|i: int|
                0 <= i < dim implies #[trigger] self.chunk_grid.spec_within_chunk(g)[i]
                < self.chunk_grid.spec_chunk_extents(k)[i] by {
                crate::chunk_grid::lemma_chunk_owner_axis(
                    self.shape@[i] as int,
                    self.chunk_grid.chunk_shape@[i] as int,
                    g[i] as int,
                );
                assert(own[i] == k[i]);
            }
        }
        if forall|i: int| 0 <= i < g.len() ==> self.chunk_grid.spec_chunk_origin(k)[i]
            <= #[trigger] g[i] < self.chunk_grid.spec_chunk_origin(k)[i]
            + self.chunk_grid.spec_chunk_extents(k)[i] {
            assert forall|i: int| 0 <= i < dim implies own[i] == k[i] by {
                assert(self.chunk_grid.spec_chunk_origin(k)[i] <= g[i]
                    < self.chunk_grid.spec_chunk_origin(k)[i] + self.chunk_grid.spec_chunk_extents(
                    k,
                )[i]);
                crate::chunk_grid::lemma_ceil_div_split(
                    self.shape@[i] as int,
                    self.chunk_grid.chunk_shape@[i] as int,
                );
                crate::chunk_grid::lemma_chunk_axis(
                    self.shape@[i] as int,
                    self.chunk_grid.chunk_shape@[i] as int,
                    k[i] as int,
                );
                crate::chunk_grid::lemma_chunk_member_axis(
                    self.shape@[i] as int,
                    self.chunk_grid.chunk_shape@[i] as int,
                    k[i] as int,
                    g[i] as int,
                );
            }
            assert(own =~= k);
        }
    }

    /// The chunk-window correspondence: for a region and a chunk whose
    /// overlap with it is `(ostart, oshape)`, a region byte lands in the
    /// overlap's window exactly when the chunk owns its position, and the
    /// overlap block's byte there is the region's byte.
    proof fn lemma_chunk_window(
        &self,
        rstart: Seq<u64>,
        rshape: Seq<u64>,
        k: Seq<u64>,
        ostart: Seq<u64>,
        oshape: Seq<u64>,
        j: int,
    )
        requires
            self.wf(),
            rstart.len() == self.spec_dim(),
            rshape.len() == self.spec_dim(),
            forall|i: int| 0 <= i < rshape.len() ==> rstart[i] + rshape[i] <= self.shape@[i],
            self.chunk_indices_valid(k),
            ostart.len() == self.spec_dim(),
            oshape.len() == self.spec_dim(),
            forall|i: int| 0 <= i < ostart.len() ==> ostart[i] == crate::subset::max_u64(
                self.chunk_grid.spec_chunk_origin(k)[i],
                rstart[i],
            ),
            forall|i: int| 0 <= i < ostart.len() ==> ostart[i] + oshape[i] == crate::subset::max_i(
                crate::subset::min_i(
                    self.chunk_grid.spec_chunk_origin(k)[i] + self.chunk_grid.spec_chunk_extents(
                        k,
                    )[i],
                    rstart[i] + rshape[i],
                ),
                ostart[i] as int,
            ),
            0 <= j < num_elements(rshape) * self.spec_es(),
        ensures
            ({
                let es = self.spec_es() as int;
                let p = coord_of(j / es, rshape);
                let g = vadd(rstart, p);
                let vstart = crate::subset::vsub(ostart, rstart);
                &&& (crate::subset::in_window(j, rshape, vstart, oshape, self.spec_es())
                    <==> self.chunk_grid.spec_owning_chunk(g) == k)
                &&& (crate::subset::in_window(j, rshape, vstart, oshape, self.spec_es())
                    && self.unverified_chunk(k) is Some ==> crate::subset::project(
                    self.unverified_chunk(k)->0,
                    self.chunk_grid.spec_chunk_extents(k),
                    crate::subset::vsub(ostart, self.chunk_grid.spec_chunk_origin(k)),
                    oshape,
                    self.spec_es(),
                )[crate::subset::window_source(j, rshape, vstart, oshape, self.spec_es())]
                    == self.region_result(rstart, rshape)[j])
            }),
    {
        let es = self.spec_es() as int;
        let esn = self.spec_es();
        let dim = self.spec_dim() as int;
        self.lemma_region_byte(rstart, rshape, j);
        let p = coord_of(j / es, rshape);
        let g = vadd(rstart, p);
        let vstart = crate::subset::vsub(ostart, rstart);
        let origin = self.chunk_grid.spec_chunk_origin(k);
        let extents = self.chunk_grid.spec_chunk_extents(k);
        self.lemma_owning(g, k);
        // the region always holds the position, so window membership is
        // exactly chunk membership
        assert forall|i: int| 0 <= i < dim implies (rstart[i] <= ostart[i] && origin[i]
            <= ostart[i] && origin[i] + extents[i] <= self.shape@[i] && 1 <= extents[i]) by {
            crate::chunk_grid::lemma_chunk_axis(
                self.shape@[i] as int,
                self.chunk_grid.chunk_shape@[i] as int,
                k[i] as int,
            );
        }
        assert(crate::subset::in_window(j, rshape, vstart, oshape, esn) <==> (forall|i: int|
            0 <= i < dim ==> ostart[i] <= #[trigger] g[i] < ostart[i] + oshape[i])) by {
            crate::subset::lemma_num_elements_monotone(rshape, self.shape@);
            crate::codec::lemma_chunk_counts(self.shape@, esn);
            assert(num_elements(rshape) * esn <= num_elements(self.shape@) * esn)
                by (nonlinear_arith)
                requires
                    num_elements(rshape) <= num_elements(self.shape@),
                    esn >= 0,
            ;
            if forall|i: int| 0 <= i < dim ==> ostart[i] <= #[trigger] g[i] < ostart[i] + oshape[i] {
                assert forall|i: int| 0 <= i < dim implies vstart[i] <= #[trigger] p[i] < vstart[i]
                    + oshape[i] by {
                    assert(ostart[i] <= g[i] < ostart[i] + oshape[i]);
                }
            }
            if crate::subset::in_window(j, rshape, vstart, oshape, esn) {
                assert forall|i: int| 0 <= i < dim implies ostart[i] <= #[trigger] g[i] < ostart[i]
                    + oshape[i] by {
                    assert(vstart[i] <= p[i] < vstart[i] + oshape[i]);
                }
            }
        }
        assert((forall|i: int| 0 <= i < dim ==> ostart[i] <= #[trigger] g[i] < ostart[i]
            + oshape[i]) <==> (forall|i: int| 0 <= i < dim ==> origin[i] <= #[trigger] g[i]
            < origin[i] + extents[i])) by {
            if forall|i: int| 0 <= i < dim ==> ostart[i] <= #[trigger] g[i] < ostart[i] + oshape[i] {
                assert forall|i: int| 0 <= i < dim implies origin[i] <= #[trigger] g[i] < origin[i]
                    + extents[i] by {
                    assert(ostart[i] <= g[i] < ostart[i] + oshape[i]);
                    assert(rstart[i] <= g[i] < rstart[i] + rshape[i]);
                }
            }
            if forall|i: int| 0 <= i < dim ==> origin[i] <= #[trigger] g[i] < origin[i]
                + extents[i] {
                assert forall|i: int| 0 <= i < dim implies ostart[i] <= #[trigger] g[i] < ostart[i]
                    + oshape[i] by {
                    assert(origin[i] <= g[i] < origin[i] + extents[i]);
                    assert(rstart[i] <= g[i] < rstart[i] + rshape[i]);
                }
            }
        }
        if crate::subset::in_window(j, rshape, vstart, oshape, esn) && self.unverified_chunk(
            k,
        ) is Some {
            let d = self.unverified_chunk(k)->0;
            let lstart = crate::subset::vsub(ostart, origin);
            assert forall|i: int| 0 <= i < dim implies lstart[i] + oshape[i] <= extents[i] by {
                assert(vstart[i] <= p[i] < vstart[i] + oshape[i]);
                assert(ostart[i] <= g[i] < ostart[i] + oshape[i]);
            }
            crate::subset::lemma_window_inverse(j, rshape, vstart, oshape, esn);
            let ws = crate::subset::window_source(j, rshape, vstart, oshape, esn);
            let lw = crate::subset::linear_index(crate::subset::vsub(p, vstart), oshape);
            vstd::arithmetic::div_mod::lemma_fundamental_div_mod(j, es);
            vstd::arithmetic::div_mod::lemma_fundamental_div_mod_converse(
                ws,
                es,
                lw,
                j % es,
            );
            assert(crate::subset::valid_coord(crate::subset::vsub(p, vstart), oshape)) by {
                assert forall|i: int|
                    0 <= i < dim implies #[trigger] crate::subset::vsub(p, vstart)[i]
                    < oshape[i] by {
                    assert(vstart[i] <= p[i] < vstart[i] + oshape[i]);
                }
            }
            crate::subset::lemma_linear_coord_roundtrip(crate::subset::vsub(p, vstart), oshape);
            assert(coord_of(lw, oshape) == crate::subset::vsub(p, vstart));
            // the source element inside the chunk is the position's
            // within-chunk coordinate
            assert(vadd(lstart, crate::subset::vsub(p, vstart)) =~= self.chunk_grid.spec_within_chunk(
                g,
            )) by {
                assert forall|i: int|
                    0 <= i < dim implies vadd(lstart, crate::subset::vsub(p, vstart))[i]
                    == self.chunk_grid.spec_within_chunk(g)[i] by {
                    assert(ostart[i] <= g[i] < ostart[i] + oshape[i]);
                    assert(origin[i] <= ostart[i]);
                    assert(rstart[i] <= ostart[i]);
                    assert(self.chunk_grid.spec_within_chunk(g) =~= crate::subset::vsub(g, origin));
                }
            }
            assert(crate::subset::element_source_index(ws, extents, lstart, oshape, esn)
                == crate::subset::linear_index(self.chunk_grid.spec_within_chunk(g), extents) * es
                + j % es);
            assert(self.element_bytes(g)[j % es] == d[crate::subset::linear_index(
                self.chunk_grid.spec_within_chunk(g),
                extents,
            ) * es + j % es]);
        }
    }

    /// Every chunk the region `(start, shape)` touches is absent or decodes
    /// under full validation, so a read of the region owes an answer.
    pub open spec fn region_reads_ok(
        &self,
        start: Seq<u64>,
        shape: Seq<u64>,
        validate: bool,
    ) -> bool {
        forall|g: Seq<u64>| (g.len() == self.spec_dim() && (forall|i: int| 0 <= i < g.len()
            ==> start[i] <= #[trigger] g[i] < start[i] + shape[i]))
            ==> (#[trigger] self.effective_chunk(self.chunk_grid.spec_owning_chunk(g), validate)) is Some
    }

    /// A chunk that decodes under validation has the same bytes along the
    /// unvalidated partial-decode path.
    pub proof fn lemma_effective_implies_unverified(&self, k: Seq<u64>, validate: bool)
        ensures
            self.effective_chunk(k, validate) matches Some(d) ==> self.unverified_chunk(k)
                == Some(d),
    {
        match self.stored_chunk(k) {
            Some(raw) => {
                let extents = self.chunk_grid.spec_chunk_extents(k);
                crate::codec_chain::lemma_bb_decode_prefix(
                    self.codecs.bytes_to_bytes@.reverse(),
                    raw,
                    validate,
                );
            },
            None => {
            },
        }
    }

    /// The value of output byte `j` once the first `kbound` chunks of the
    /// covering grid region have been written: the region's byte when the
    /// owning chunk is among them, the initial zero otherwise.
    pub open spec fn assembled_byte(
        &self,
        j: int,
        kbound: int,
        rstart: Seq<u64>,
        rshape: Seq<u64>,
        cstart: Seq<u64>,
        cshape: Seq<u64>,
    ) -> u8 {
        let es = self.spec_es() as int;
        let g = vadd(rstart, coord_of(j / es, rshape));
        let k = self.chunk_grid.spec_owning_chunk(g);
        if linear_index(crate::subset::vsub(k, cstart), cshape) < kbound {
            self.region_result(rstart, rshape)[j]
        } else {
            0u8
        }
    }

    /// Retrieve the decoded bytes of a rectilinear region of the array:
    /// locate the intersecting chunks, decode each, and assemble the
    /// fragments into one contiguous row-major buffer.
    #[verifier::loop_isolation(false)]
    #[verifier::rlimit(100)]
    pub fn retrieve_array_subset_opt(&self, array_subset: &ArraySubset, options: &CodecOptions) -> (r:
        Result<Vec<u8>, ArrayError>)
        requires
            self.wf(),
            1 <= options.concurrent_target,
        ensures
            r matches Ok(v) ==> array_subset.wf() && array_subset.spec_inbounds(self.shape@) && v@
                == self.region_result(array_subset.start@, array_subset.shape@),
            !(array_subset.wf() && array_subset.spec_inbounds(self.shape@)) ==> (r matches Err(
                ArrayError::InvalidArraySubset(s, b),
            ) && s.start@ == array_subset.start@ && s.shape@ == array_subset.shape@ && b@
                == self.shape@),
            (array_subset.wf() && array_subset.spec_inbounds(self.shape@) && self.region_reads_ok(
                array_subset.start@,
                array_subset.shape@,
                options.validate_checksums,
            )) ==> (r is Ok || r matches Err(ArrayError::StorageError(_))),
            (array_subset.wf() && array_subset.spec_inbounds(self.shape@) && num_elements(
                array_subset.shape@,
            ) == 0) ==> r is Ok,
    {
        let ghost rstart = array_subset.start@;
        let ghost rshape = array_subset.shape@;
        if array_subset.start().len() != array_subset.shape().len() || !array_subset.inbounds(
            &self.shape,
        ) {
            return Err(
                ArrayError::InvalidArraySubset(
                    array_subset.clone(),
                    crate::subset::copy_u64_vec(&self.shape),
                ),
            );
        }
        let es = self.data_type.size();
        proof {
            crate::subset::lemma_num_elements_monotone(rshape, self.shape@);
            crate::codec::lemma_chunk_counts(self.shape@, self.spec_es());
            vstd::arithmetic::mul::lemma_mul_upper_bound(
                num_elements(rshape) as int,
                num_elements(self.shape@) as int,
                self.spec_es() as int,
                self.spec_es() as int,
            );
        }
        let ne_sub = crate::subset::product_u64(array_subset.shape()) as usize;
        let size = ne_sub * es;
        if size == 0 {
            let out: Vec<u8> = Vec::new();
            proof {
                assert(ne_sub * es == 0);
                assert(out@ =~= self.region_result(rstart, rshape));
            }
            return Ok(out);
        }
        proof {
            assert(num_elements(rshape) >= 1) by (nonlinear_arith)
                requires
                    num_elements(rshape) * es >= 1,
                    es >= 1,
            ;
            crate::subset::lemma_num_elements_pos(rshape);
        }
        let chunks = self.chunk_grid.chunks_in_array_subset(array_subset);
        let ghost cstart = chunks.start@;
        let ghost cshape = chunks.shape@;
        proof {
            assert forall|i: int| 0 <= i < self.spec_dim() implies
                #[trigger] self.chunk_grid.spec_grid_shape()[i] <= self.shape@[i] by {
                crate::chunk_grid::lemma_ceil_div_split(
                    self.shape@[i] as int,
                    self.chunk_grid.chunk_shape@[i] as int,
                );
            }
            crate::subset::lemma_num_elements_monotone(cshape, self.chunk_grid.spec_grid_shape());
            crate::subset::lemma_num_elements_monotone(
                self.chunk_grid.spec_grid_shape(),
                self.shape@,
            );
        }
        let num_chunks = crate::subset::product_u64(chunks.shape()) as usize;
        proof {
            crate::subset::lemma_num_elements_pos(cshape);
            assert forall|i: int| 0 <= i < self.spec_dim() implies #[trigger] chunks.start@[i]
                < self.chunk_grid.spec_grid_shape()[i] by {
                assert(cshape[i] >= 1);
                assert(cstart[i] + cshape[i] <= self.chunk_grid.spec_grid_shape()[i]);
            }
        }
        if num_chunks == 1 {
            // one intersecting chunk covering the whole request: a full
            // chunk decode, skipping the partial path
            let cs = self.chunk_grid.chunk_subset(chunks.start());
            if cs == *array_subset {
                proof {
                    assert(cstart.len() == self.spec_dim());
                    assert forall|i: int| 0 <= i < self.spec_dim() implies #[trigger] cshape[i]
                        == 1 by {
                        crate::codec::lemma_product_remove(cshape, i);
                        if cshape[i] >= 2 {
                            crate::subset::lemma_num_elements_pos(cshape.remove(i));
                            assert(num_elements(cshape.remove(i)) * (cshape[i] as nat) >= 2)
                                by (nonlinear_arith)
                                requires
                                    num_elements(cshape.remove(i)) >= 1,
                                    cshape[i] >= 2,
                            ;
                        }
                    }
                }
                match self.retrieve_chunk_opt(chunks.start(), options) {
                    Ok(v) => {
                        proof {
                            self.lemma_effective_implies_unverified(
                                cstart,
                                options.validate_checksums,
                            );
                            self.lemma_chunk_tile(cstart);
                            assert(cs.start@ == rstart && cs.shape@ == rshape);
                        }
                        return Ok(v);
                    },
                    Err(e) => {
                        proof {
                            if self.region_reads_ok(rstart, rshape, options.validate_checksums) {
                                let g0 = rstart;
                                assert forall|i: int| 0 <= i < g0.len() implies rstart[i]
                                    <= #[trigger] g0[i] < rstart[i] + rshape[i] by {
                                    assert(rshape[i] >= 1);
                                }
                                assert(self.effective_chunk(
                                    self.chunk_grid.spec_owning_chunk(g0),
                                    options.validate_checksums,
                                ) is Some);
                                assert(array_subset.spec_contains(g0));
                                assert(chunks.spec_contains(
                                    self.chunk_grid.spec_owning_chunk(g0),
                                ));
                                assert(self.chunk_grid.spec_owning_chunk(g0) =~= cstart) by {
                                    assert forall|i: int|
                                        0 <= i
                                        < self.spec_dim() implies self.chunk_grid.spec_owning_chunk(
                                        g0,
                                    )[i] == cstart[i] by {
                                        assert(cstart[i] <= self.chunk_grid.spec_owning_chunk(
                                            g0,
                                        )[i] < cstart[i] + cshape[i]);
                                        assert(cshape[i] == 1);
                                    }
                                }
                            }
                        }
                        return Err(e);
                    },
                }
            }
        }
        let first_rep = match self.chunk_array_representation(chunks.start()) {
            Ok(c) => c,
            Err(_) => {
                // the covering region is non-empty and inbounds of the grid,
                // so its first coordinate names a chunk
                proof {
                    assert(false);
                }
                return Err(ArrayError::StorageError(StorageError::Other(String::new())));
            },
        };
        let codec_concurrency = self.codecs.recommended_concurrency(&first_rep);
        let (chunk_concurrent_limit, inner_options) = crate::concurrency::concurrency_chunks_and_codec(
            options.concurrent_target,
            num_chunks,
            options,
            &codec_concurrency,
        );
        // the fan-out runs the work items one after another here; the limit
        // bounds the concurrent mode built on the same plan
        proof {
            assert(chunk_concurrent_limit >= 1);
        }
        let mut out = zero_vec(size);
        proof {
            assert forall|j: int| 0 <= j < out@.len() implies out@[j] == self.assembled_byte(
                j,
                0int,
                rstart,
                rshape,
                cstart,
                cshape,
            ) by {
                self.lemma_region_byte(rstart, rshape, j);
                let g = vadd(rstart, coord_of(j / es as int, rshape));
                assert(array_subset.spec_contains(g));
                assert(chunks.spec_contains(self.chunk_grid.spec_owning_chunk(g)));
                let kr = crate::subset::vsub(self.chunk_grid.spec_owning_chunk(g), cstart);
                assert(crate::subset::valid_coord(kr, cshape)) by {
                    assert forall|i: int| 0 <= i < kr.len() implies #[trigger] kr[i] < cshape[i] by {
                        assert(cstart[i] <= self.chunk_grid.spec_owning_chunk(g)[i] < cstart[i]
                            + cshape[i]);
                    }
                }
                crate::subset::lemma_linear_index_bounds(kr, cshape);
            }
        }
        for t in 0..num_chunks
            invariant
                out@.len() == size,
                forall|j: int| 0 <= j < out@.len() ==> out@[j] == self.assembled_byte(
                    j,
                    t as int,
                    rstart,
                    rshape,
                    cstart,
                    cshape,
                ),
        {
            let kt_rel = crate::subset::coord_from_linear(t as u64, chunks.shape());
            let mut kt: Vec<u64> = Vec::new();
            let dim = self.shape.len();
            for i in 0..dim
                invariant
                    kt_rel@ == coord_of(t as int, cshape),
                    crate::subset::valid_coord(kt_rel@, cshape),
                    kt@ =~= vadd(cstart, kt_rel@).take(i as int),
            {
                proof {
                    assert(kt_rel@[i as int] < cshape[i as int]);
                    assert(cstart[i as int] + cshape[i as int]
                        <= self.chunk_grid.spec_grid_shape()[i as int]);
                    crate::chunk_grid::lemma_ceil_div_split(
                        self.shape@[i as int] as int,
                        self.chunk_grid.chunk_shape@[i as int] as int,
                    );
                }
                kt.push(chunks.start[i] + kt_rel[i]);
                assert(kt@ =~= vadd(cstart, kt_rel@).take(i + 1));
            }
            proof {
                assert(kt@ =~= vadd(cstart, kt_rel@));
                assert(self.chunk_indices_valid(kt@)) by {
                    assert forall|i: int| 0 <= i < dim implies (#[trigger] kt@[i])
                        < self.chunk_grid.spec_grid_shape()[i] by {
                        assert(kt_rel@[i] < cshape[i]);
                        assert(cstart[i] + cshape[i] <= self.chunk_grid.spec_grid_shape()[i]);
                    }
                }
                // the chunk owns a position of the region
                assert forall|i: int| 0 <= i < dim implies (rstart[i] as int
                    / self.chunk_grid.chunk_shape@[i] as int <= (#[trigger] kt@[i]) as int <= (
                rstart[i] + rshape[i] - 1) as int / self.chunk_grid.chunk_shape@[i] as int) by {
                    assert(rshape[i] != 0);
                    assert(cstart[i] == rstart[i] as int / self.chunk_grid.chunk_shape@[i] as int);
                    assert(cstart[i] + cshape[i] == (rstart[i] + rshape[i] - 1) as int
                        / self.chunk_grid.chunk_shape@[i] as int + 1);
                    assert(kt_rel@[i] < cshape[i]);
                }
            }
            let ghost witness = Seq::new(
                self.spec_dim(),
                |i: int| if kt@[i] as int == rstart[i] as int
                    / self.chunk_grid.chunk_shape@[i] as int {
                    rstart[i]
                } else {
                    (kt@[i] * self.chunk_grid.chunk_shape@[i]) as u64
                },
            );
            proof {
                assert forall|i: int| 0 <= i < dim implies (rstart[i] <= #[trigger] witness[i]
                    < rstart[i] + rshape[i] && witness[i] as int
                    / self.chunk_grid.chunk_shape@[i] as int == kt@[i] as int) by {
                    crate::chunk_grid::lemma_chunk_range_tight(
                        self.shape@[i] as int,
                        self.chunk_grid.chunk_shape@[i] as int,
                        rstart[i] as int,
                        rshape[i] as int,
                        kt@[i] as int,
                    );
                }
                assert(self.chunk_grid.spec_owning_chunk(witness) =~= kt@);
                assert(array_subset.spec_contains(witness));
            }
            let cs = self.chunk_grid.chunk_subset(&kt);
            proof {
                assert forall|i: int| 0 <= i < dim implies rstart[i] + rshape[i] <= u64::MAX by {
                    assert(rstart[i] + rshape[i] <= self.shape@[i]);
                }
            }
            let o = cs.overlap(array_subset);
            let ghost ostart = o.start@;
            let ghost oshape = o.shape@;
            proof {
                // the overlap contains the witness, so it is nonempty and
                // fits both the chunk and the region along every axis
                assert(cs.spec_contains(witness)) by {
                    self.lemma_owning(witness, kt@);
                }
                assert(o.spec_contains(witness));
                assert forall|i: int| 0 <= i < dim implies (cs.start@[i] <= #[trigger] ostart[i]
                    && rstart[i] <= ostart[i] && ostart[i] + oshape[i] <= cs.start@[i]
                    + cs.shape@[i] && ostart[i] + oshape[i] <= rstart[i] + rshape[i]) by {
                    assert(ostart[i] <= witness[i] < ostart[i] + oshape[i]);
                }
            }
            let l = o.relative_to(cs.start());
            let v = o.relative_to(array_subset.start());
            let block = match self.retrieve_chunk_subset_opt(&kt, &l, &inner_options) {
                Ok(b) => b,
                Err(e) => {
                    proof {
                        if self.region_reads_ok(rstart, rshape, options.validate_checksums) {
                            assert(self.effective_chunk(
                                self.chunk_grid.spec_owning_chunk(witness),
                                options.validate_checksums,
                            ) is Some);
                            self.lemma_effective_implies_unverified(
                                kt@,
                                options.validate_checksums,
                            );
                            assert(l.spec_inbounds(self.chunk_grid.spec_chunk_extents(kt@)));
                        }
                    }
                    return Err(e);
                },
            };
            let ghost prev = out@;
            crate::subset::copy_block_into_window(&block, &mut out, array_subset.shape(), &v, es);
            proof {
                let esn = self.spec_es();
                let vstart = crate::subset::vsub(ostart, rstart);
                assert(v.start@ =~= vstart);
                assert(l.start@ =~= crate::subset::vsub(
                    ostart,
                    self.chunk_grid.spec_chunk_origin(kt@),
                ));
                // this chunk's rank in the row-major order over the covering
                // grid region is the loop position
                crate::subset::lemma_linear_coord_roundtrip(kt_rel@, cshape);
                assert(crate::subset::vsub(kt@, cstart) =~= kt_rel@);
                crate::subset::lemma_linear_index_bounds(kt_rel@, cshape);
                assert(linear_index(crate::subset::vsub(kt@, cstart), cshape)
                    == linear_index(coord_of(t as int, cshape), cshape));
                crate::subset::lemma_coord_of_roundtrip(t as int, cshape);
                assert forall|j: int| 0 <= j < out@.len() implies out@[j] == self.assembled_byte(
                    j,
                    t + 1,
                    rstart,
                    rshape,
                    cstart,
                    cshape,
                ) by {
                    self.lemma_region_byte(rstart, rshape, j);
                    self.lemma_chunk_window(rstart, rshape, kt@, ostart, oshape, j);
                    let g = vadd(rstart, coord_of(j / esn as int, rshape));
                    let own = self.chunk_grid.spec_owning_chunk(g);
                    assert(array_subset.spec_contains(g));
                    assert(chunks.spec_contains(own));
                    let kr = crate::subset::vsub(own, cstart);
                    assert(crate::subset::valid_coord(kr, cshape)) by {
                        assert forall|i: int| 0 <= i < kr.len() implies #[trigger] kr[i]
                            < cshape[i] by {
                            assert(cstart[i] <= own[i] < cstart[i] + cshape[i]);
                        }
                    }
                    crate::subset::lemma_linear_index_bounds(kr, cshape);
                    if own == kt@ {
                        // this chunk wrote the byte
                        assert(crate::subset::in_window(j, rshape, vstart, oshape, esn));
                        crate::subset::lemma_window_inverse(j, rshape, vstart, oshape, esn);
                        assert(out@[j] == block@[crate::subset::window_source(
                            j,
                            rshape,
                            vstart,
                            oshape,
                            esn,
                        )]);
                        assert(out@[j] == self.region_result(rstart, rshape)[j]);
                        assert(linear_index(kr, cshape) == t);
                    } else {
                        // untouched: the window belongs to other positions
                        if crate::subset::in_window(j, rshape, vstart, oshape, esn) {
                            assert(false);
                        }
                        assert(out@[j] == prev[j]);
                        if linear_index(kr, cshape) == t {
                            crate::subset::lemma_linear_coord_roundtrip(kr, cshape);
                            assert(kr == coord_of(t as int, cshape));
                            assert(own =~= vadd(cstart, kr)) by {
                                assert forall|i: int| 0 <= i < dim implies own[i] == vadd(
                                    cstart,
                                    kr,
                                )[i] by {
                                    assert(cstart[i] <= own[i] < cstart[i] + cshape[i]);
                                }
                            }
                            assert(false);
                        }
                    }
                }
            }
        }
        proof {
            assert forall|j: int| 0 <= j < out@.len() implies out@[j] == self.region_result(
                rstart,
                rshape,
            )[j] by {
                self.lemma_region_byte(rstart, rshape, j);
                let g = vadd(rstart, coord_of(j / es as int, rshape));
                assert(array_subset.spec_contains(g));
                assert(chunks.spec_contains(self.chunk_grid.spec_owning_chunk(g)));
                let kr = crate::subset::vsub(self.chunk_grid.spec_owning_chunk(g), cstart);
                assert(crate::subset::valid_coord(kr, cshape)) by {
                    assert forall|i: int| 0 <= i < kr.len() implies #[trigger] kr[i] < cshape[i] by {
                        assert(cstart[i] <= self.chunk_grid.spec_owning_chunk(g)[i] < cstart[i]
                            + cshape[i]);
                    }
                }
                crate::subset::lemma_linear_index_bounds(kr, cshape);
            }
            assert(out@ =~= self.region_result(rstart, rshape));
        }
        Ok(out)
    }

    /// Retrieve a region of the array with sequential options.
    pub fn retrieve_array_subset(&self, array_subset: &ArraySubset) -> (r: Result<
        Vec<u8>,
        ArrayError,
    >)
        requires
            self.wf(),
        ensures
            r matches Ok(v) ==> array_subset.wf() && array_subset.spec_inbounds(self.shape@) && v@
                == self.region_result(array_subset.start@, array_subset.shape@),
            !(array_subset.wf() && array_subset.spec_inbounds(self.shape@)) ==> r is Err,
            (array_subset.wf() && array_subset.spec_inbounds(self.shape@) && self.region_reads_ok(
                array_subset.start@,
                array_subset.shape@,
                true,
            )) ==> (r is Ok || r matches Err(ArrayError::StorageError(_))),
            (array_subset.wf() && array_subset.spec_inbounds(self.shape@) && num_elements(
                array_subset.shape@,
            ) == 0) ==> r is Ok,
    {
        let options = CodecOptions::new(1);
        self.retrieve_array_subset_opt(array_subset, &options)
    }
    /// The array position at which a grid-space region of chunks starts,
    /// axis by axis; the origin where the region has no extent.
    pub open spec fn spec_cover_start(&self, cstart: Seq<u64>, cshape: Seq<u64>) -> Seq<u64> {
        Seq::new(
            self.spec_dim(),
            |i: int| if cshape[i] == 0 {
                0u64
            } else {
                (cstart[i] * self.chunk_grid.chunk_shape@[i]) as u64
            },
        )
    }

    /// The extents of the array region covered by a grid-space region of
    /// chunks: whole chunks, truncated at the array bound.
    pub open spec fn spec_cover_shape(&self, cstart: Seq<u64>, cshape: Seq<u64>) -> Seq<u64> {
        Seq::new(
            self.spec_dim(),
            |i: int| if cshape[i] == 0 {
                0u64
            } else {
                (crate::subset::min_i(
                    (cstart[i] + cshape[i]) * self.chunk_grid.chunk_shape@[i],
                    self.shape@[i] as int,
                ) - cstart[i] * self.chunk_grid.chunk_shape@[i]) as u64
            },
        )
    }

    /// The array region covered by a grid-space region of chunks.
    #[verifier::loop_isolation(false)]
    pub fn chunks_subset(&self, chunks: &ArraySubset) -> (r: ArraySubset)
        requires
            self.wf(),
            chunks.wf(),
            chunks.spec_inbounds(self.chunk_grid.spec_grid_shape()),
        ensures
            r.wf(),
            r.start@ == self.spec_cover_start(chunks.start@, chunks.shape@),
            r.shape@ == self.spec_cover_shape(chunks.start@, chunks.shape@),
            r.spec_inbounds(self.shape@),
            // the covered region holds exactly the positions owned by the
            // chunks of the grid region
            forall|g: Seq<u64>| (g.len() == self.spec_dim() && (forall|i: int| 0 <= i < g.len()
                ==> (#[trigger] g[i]) < self.shape@[i])) ==> (r.spec_contains(g)
                <==> chunks.spec_contains(self.chunk_grid.spec_owning_chunk(g))),
    {
        let dim = self.shape.len();
        let mut start: Vec<u64> = Vec::new();
        let mut shape: Vec<u64> = Vec::new();
        for i in 0..dim
            invariant
                start@.len() == i,
                shape@.len() == i,
                forall|t: int| 0 <= t < i && chunks.shape@[t] != 0 ==> (#[trigger] start@[t]) == (
                chunks.start@[t] * self.chunk_grid.chunk_shape@[t]) as u64,
                forall|t: int| 0 <= t < i && chunks.shape@[t] == 0 ==> (#[trigger] start@[t]) == 0,
                forall|t: int| 0 <= t < i ==> start@[t] + shape@[t] <= self.shape@[t],
                forall|t: int| 0 <= t < i ==> (chunks.shape@[t] == 0 ==> shape@[t] == 0),
                forall|t: int| 0 <= t < i ==> (chunks.shape@[t] != 0 ==> start@[t] + shape@[t]
                    == crate::subset::min_i(
                    (chunks.start@[t] + chunks.shape@[t]) * self.chunk_grid.chunk_shape@[t],
                    self.shape@[t] as int,
                )),
        {
            let a = self.array_shape_at(i);
            let c = self.chunk_grid.chunk_shape[i];
            let ks = chunks.start[i];
            let kn = chunks.shape[i];
            proof {
                crate::chunk_grid::lemma_ceil_div_split(a as int, c as int);
            }
            if kn == 0 {
                start.push(0);
                shape.push(0);
            } else {
                proof {
                    assert(chunks.start@[i as int] + chunks.shape@[i as int]
                        <= self.chunk_grid.spec_grid_shape()[i as int]);
                    crate::chunk_grid::lemma_chunk_axis(a as int, c as int, ks as int);
                    crate::chunk_grid::lemma_chunk_axis(a as int, c as int, (ks + kn - 1) as int);
                    assert(ks as int * c as int <= (ks + kn - 1) as int * c as int)
                        by (nonlinear_arith)
                        requires
                            ks as int <= (ks + kn - 1) as int,
                            c as int >= 1,
                    ;
                    assert((ks + kn) as int * c as int == (ks + kn - 1) as int * c as int + c as int)
                        by (nonlinear_arith);
                }
                let s = ks * c;
                let last_origin = (ks + kn - 1) * c;
                let e = if c <= a - last_origin {
                    last_origin + c
                } else {
                    a
                };
                start.push(s);
                shape.push(e - s);
            }
        }
        let r = ArraySubset::new(start, shape);
        proof {
            assert forall|t: int| 0 <= t < dim implies (r.start@[t] == self.spec_cover_start(
                chunks.start@,
                chunks.shape@,
            )[t] && r.shape@[t] == self.spec_cover_shape(chunks.start@, chunks.shape@)[t]) by {
                if chunks.shape@[t] != 0 {
                    let a = self.shape@[t] as int;
                    let c = self.chunk_grid.chunk_shape@[t] as int;
                    crate::chunk_grid::lemma_ceil_div_split(a, c);
                    assert(chunks.start@[t] + chunks.shape@[t]
                        <= self.chunk_grid.spec_grid_shape()[t]);
                    crate::chunk_grid::lemma_chunk_axis(a, c, chunks.start@[t] as int);
                    crate::chunk_grid::lemma_chunk_axis(
                        a,
                        c,
                        (chunks.start@[t] + chunks.shape@[t] - 1) as int,
                    );
                    assert((chunks.start@[t] + chunks.shape@[t]) as int * c == (chunks.start@[t]
                        + chunks.shape@[t] - 1) as int * c + c) by (nonlinear_arith);
                    assert(chunks.start@[t] as int * c <= (chunks.start@[t] + chunks.shape@[t]
                        - 1) as int * c) by (nonlinear_arith)
                        requires
                            chunks.start@[t] as int <= (chunks.start@[t] + chunks.shape@[t]
                                - 1) as int,
                            c >= 1,
                    ;
                }
            }
            assert(r.start@ =~= self.spec_cover_start(chunks.start@, chunks.shape@));
            assert(r.shape@ =~= self.spec_cover_shape(chunks.start@, chunks.shape@));
            assert forall|g: Seq<u64>| (g.len() == self.spec_dim() && (forall|i: int| 0 <= i
                < g.len() ==> (#[trigger] g[i]) < self.shape@[i])) implies (r.spec_contains(g)
                <==> chunks.spec_contains(self.chunk_grid.spec_owning_chunk(g))) by {
                if g.len() == self.spec_dim() && (forall|i: int| 0 <= i < g.len() ==> (
                #[trigger] g[i]) < self.shape@[i]) {
                    let own = self.chunk_grid.spec_owning_chunk(g);
                    assert forall|i: int| 0 <= i < dim implies ((r.start@[i] <= #[trigger] g[i]
                        < r.start@[i] + r.shape@[i]) <==> (chunks.start@[i] <= own[i]
                        < chunks.start@[i] + chunks.shape@[i])) by {
                        let a = self.shape@[i] as int;
                        let c = self.chunk_grid.chunk_shape@[i] as int;
                        crate::chunk_grid::lemma_chunk_owner_axis(a, c, g[i] as int);
                        crate::chunk_grid::lemma_ceil_div_split(a, c);
                        let q = g[i] as int / c;
                        if chunks.shape@[i] != 0 {
                            assert(chunks.start@[i] + chunks.shape@[i]
                                <= self.chunk_grid.spec_grid_shape()[i]);
                            crate::chunk_grid::lemma_chunk_axis(a, c, chunks.start@[i] as int);
                            crate::chunk_grid::lemma_chunk_axis(
                                a,
                                c,
                                (chunks.start@[i] + chunks.shape@[i] - 1) as int,
                            );
                            assert((chunks.start@[i] <= q < chunks.start@[i] + chunks.shape@[i])
                                ==> (r.start@[i] <= g[i] < r.start@[i] + r.shape@[i])) by {
                                if chunks.start@[i] <= q < chunks.start@[i] + chunks.shape@[i] {
                                    assert(chunks.start@[i] as int * c <= q * c && q * c + c <= (
                                    chunks.start@[i] + chunks.shape@[i]) as int * c)
                                        by (nonlinear_arith)
                                        requires
                                            chunks.start@[i] as int <= q,
                                            q < chunks.start@[i] + chunks.shape@[i],
                                            c >= 1,
                                    ;
                                    assert(q * c <= g[i] < q * c + c);
                                }
                            }
                            assert((r.start@[i] <= g[i] < r.start@[i] + r.shape@[i]) ==> (
                            chunks.start@[i] <= q < chunks.start@[i] + chunks.shape@[i])) by {
                                if r.start@[i] <= g[i] < r.start@[i] + r.shape@[i] {
                                    crate::chunk_grid::lemma_div_monotone(
                                        chunks.start@[i] as int * c,
                                        g[i] as int,
                                        c,
                                    );
                                    crate::chunk_grid::lemma_chunk_member_axis(
                                        a,
                                        c,
                                        chunks.start@[i] as int,
                                        chunks.start@[i] as int * c,
                                    );
                                    assert(q >= chunks.start@[i]);
                                    assert(g[i] < (chunks.start@[i] + chunks.shape@[i]) as int * c);
                                    assert(q < chunks.start@[i] + chunks.shape@[i]) by {
                                        if q >= chunks.start@[i] + chunks.shape@[i] {
                                            assert(q * c >= (chunks.start@[i] + chunks.shape@[i])
                                                as int * c) by (nonlinear_arith)
                                                requires
                                                    q >= (chunks.start@[i] + chunks.shape@[i]) as int,
                                                    c >= 1,
                                            ;
                                            assert(g[i] >= q * c);
                                        }
                                    }
                                }
                            }
                        } else {
                            assert(r.shape@[i] == 0);
                        }
                    }
                }
            }
        }
        r
    }

    /// One extent of the array, by axis.
    fn array_shape_at(&self, i: usize) -> (r: u64)
        requires
            i < self.shape@.len(),
        ensures
            r == self.shape@[i as int],
    {
        self.shape[i]
    }

    /// Retrieve the decoded bytes of every chunk of a grid-space region,
    /// assembled in row-major order as one contiguous covering region.
    pub fn retrieve_chunks_opt(&self, chunks: &ArraySubset, options: &CodecOptions) -> (r: Result<
        Vec<u8>,
        ArrayError,
    >)
        requires
            self.wf(),
            1 <= options.concurrent_target,
        ensures
            r matches Ok(v) ==> {
                &&& chunks.wf()
                &&& chunks.spec_inbounds(self.chunk_grid.spec_grid_shape())
                &&& v@ == self.region_result(
                    self.spec_cover_start(chunks.start@, chunks.shape@),
                    self.spec_cover_shape(chunks.start@, chunks.shape@),
                )
            },
            !(chunks.wf() && chunks.spec_inbounds(self.chunk_grid.spec_grid_shape())) ==> (r
                matches Err(ArrayError::InvalidArraySubset(sub, b)) && sub.start@ == chunks.start@
                && sub.shape@ == chunks.shape@ && b@ == self.chunk_grid.spec_grid_shape()),
            (chunks.wf() && chunks.spec_inbounds(self.chunk_grid.spec_grid_shape())
                && num_elements(chunks.shape@) == 0) ==> r is Ok,
            (chunks.wf() && chunks.spec_inbounds(self.chunk_grid.spec_grid_shape()) && (forall|
                k: Seq<u64>,
            | chunks.spec_contains(k) ==> (#[trigger] self.effective_chunk(
                k,
                options.validate_checksums,
            )) is Some)) ==> (r is Ok || r matches Err(ArrayError::StorageError(_))),
    {
        let dim = self.shape.len();
        let grid_shape = self.chunk_grid.grid_shape();
        if chunks.start().len() != dim || chunks.shape().len() != dim || !chunks.inbounds(
            &grid_shape,
        ) {
            return Err(
                ArrayError::InvalidArraySubset(chunks.clone(), grid_shape),
            );
        }
        let cover = self.chunks_subset(chunks);
        proof {
            if num_elements(chunks.shape@) == 0 {
                // an empty chunk region covers an empty array region
                crate::subset::lemma_num_elements_pos(chunks.shape@);
                let z = choose|t: int| 0 <= t < chunks.shape@.len() && !(1 <= chunks.shape@[t]);
                assert(cover.shape@[z] == 0);
                crate::subset::lemma_zero_extent(cover.shape@, z);
            }
            if forall|k: Seq<u64>| chunks.spec_contains(k) ==> (#[trigger] self.effective_chunk(
                k,
                options.validate_checksums,
            )) is Some {
                // every position of the cover is owned by a chunk of the
                // region, so the region read is owed an answer
                assert(self.region_reads_ok(
                    cover.start@,
                    cover.shape@,
                    options.validate_checksums,
                )) by {
                    assert forall|g: Seq<u64>| (g.len() == self.spec_dim() && (forall|i: int|
                        0 <= i < g.len() ==> cover.start@[i] <= #[trigger] g[i] < cover.start@[i]
                            + cover.shape@[i])) implies (#[trigger] self.effective_chunk(
                        self.chunk_grid.spec_owning_chunk(g),
                        options.validate_checksums,
                    )) is Some by {
                        assert forall|i: int| 0 <= i < g.len() implies (#[trigger] g[i])
                            < self.shape@[i] by {
                            assert(cover.start@[i] + cover.shape@[i] <= self.shape@[i]);
                        }
                        assert(cover.spec_contains(g));
                        assert(chunks.spec_contains(self.chunk_grid.spec_owning_chunk(g)));
                    }
                }
            }
        }
        match self.retrieve_array_subset_opt(&cover, options) {
            Ok(v) => {
                proof {
                    assert(cover.wf() && cover.spec_inbounds(self.shape@) && v@
                        == self.region_result(cover.start@, cover.shape@));
                }
                Ok(v)
            },
            Err(e) => Err(e),
        }
    }

    /// Retrieve the decoded bytes of every chunk of a grid-space region,
    /// with sequential options.
    pub fn retrieve_chunks(&self, chunks: &ArraySubset) -> (r: Result<Vec<u8>, ArrayError>)
        requires
            self.wf(),
        ensures
            r matches Ok(v) ==> {
                &&& chunks.wf()
                &&& chunks.spec_inbounds(self.chunk_grid.spec_grid_shape())
                &&& v@ == self.region_result(
                    self.spec_cover_start(chunks.start@, chunks.shape@),
                    self.spec_cover_shape(chunks.start@, chunks.shape@),
                )
            },
            !(chunks.wf() && chunks.spec_inbounds(self.chunk_grid.spec_grid_shape())) ==> (r
                matches Err(ArrayError::InvalidArraySubset(sub, b)) && sub.start@ == chunks.start@
                && sub.shape@ == chunks.shape@ && b@ == self.chunk_grid.spec_grid_shape()),
            (chunks.wf() && chunks.spec_inbounds(self.chunk_grid.spec_grid_shape())
                && num_elements(chunks.shape@) == 0) ==> r is Ok,
            (chunks.wf() && chunks.spec_inbounds(self.chunk_grid.spec_grid_shape()) && (forall|
                k: Seq<u64>,
            | chunks.spec_contains(k) ==> (#[trigger] self.effective_chunk(
                k,
                true,
            )) is Some)) ==> (r is Ok || r matches Err(ArrayError::StorageError(_))),
    {
        let options = CodecOptions::new(1);
        self.retrieve_chunks_opt(chunks, &options)
    }

    /// Retrieve one whole chunk and write it into a window of a caller
    /// buffer. Bytes outside the window keep their values.
    #[verifier::loop_isolation(false)]
    pub fn retrieve_chunk_into_array_view_opt(
        &self,
        chunk_indices: &Vec<u64>,
        array_view: &ArrayView,
        out: &mut Vec<u8>,
        options: &CodecOptions,
    ) -> (r: Result<(), ArrayError>)
        requires
            self.wf(),
            array_view.wf(),
            old(out)@.len() == num_elements(array_view.array_shape@) * self.spec_es(),
        ensures
            final(out)@.len() == old(out)@.len(),
            !self.chunk_indices_valid(chunk_indices@) ==> (r matches Err(
                ArrayError::InvalidChunkGridIndicesError(ci),
            ) && ci@ == chunk_indices@),
            (self.chunk_indices_valid(chunk_indices@) && array_view.subset.shape@
                != self.chunk_grid.spec_chunk_extents(chunk_indices@)) ==> (r matches Err(
                ArrayError::InvalidArraySubset(sub, b),
            ) && sub.start@ == array_view.subset.start@ && sub.shape@ == array_view.subset.shape@
                && b@ == self.chunk_grid.spec_chunk_extents(chunk_indices@)),
            r is Ok ==> {
                &&& self.chunk_indices_valid(chunk_indices@)
                &&& array_view.subset.shape@ == self.chunk_grid.spec_chunk_extents(chunk_indices@)
                &&& self.effective_chunk(chunk_indices@, options.validate_checksums) is Some
                &&& (forall|b: int| 0 <= b < num_elements(array_view.subset.shape@) * self.spec_es()
                    ==> final(out)@[crate::subset::element_source_index(
                    b,
                    array_view.array_shape@,
                    array_view.subset.start@,
                    array_view.subset.shape@,
                    self.spec_es(),
                )] == self.effective_chunk(chunk_indices@, options.validate_checksums)->0[b])
                &&& (forall|j: int| 0 <= j < final(out)@.len() && !crate::subset::in_window(
                    j,
                    array_view.array_shape@,
                    array_view.subset.start@,
                    array_view.subset.shape@,
                    self.spec_es(),
                ) ==> final(out)@[j] == old(out)@[j])
            },
            r is Err ==> final(out)@ == old(out)@,
            (self.chunk_indices_valid(chunk_indices@) && array_view.subset.shape@
                == self.chunk_grid.spec_chunk_extents(chunk_indices@) && self.effective_chunk(
                chunk_indices@,
                options.validate_checksums,
            ) is Some) ==> (r is Ok || r matches Err(ArrayError::StorageError(_))),
    {
        let rep = match self.chunk_array_representation(chunk_indices) {
            Ok(c) => c,
            Err(e) => {
                return Err(e);
            },
        };
        if array_view.subset.shape().len() != rep.shape().len() {
            return Err(
                ArrayError::InvalidArraySubset(
                    array_view.subset.clone(),
                    crate::subset::copy_u64_vec(rep.shape()),
                ),
            );
        }
        let mut same = true;
        let n = rep.shape().len();
        for i in 0..n
            invariant
                n == rep.shape@.len() == array_view.subset.shape@.len(),
                same <==> (forall|t: int| 0 <= t < i ==> array_view.subset.shape@[t]
                    == rep.shape@[t]),
        {
            if array_view.subset.shape[i] != rep.shape[i] {
                same = false;
            }
        }
        if !same {
            return Err(
                ArrayError::InvalidArraySubset(
                    array_view.subset.clone(),
                    crate::subset::copy_u64_vec(rep.shape()),
                ),
            );
        }
        proof {
            assert(array_view.subset.shape@ =~= rep.shape@);
        }
        let block = match self.retrieve_chunk_opt(chunk_indices, options) {
            Ok(b) => b,
            Err(e) => {
                return Err(e);
            },
        };
        let es = self.data_type.size();
        proof {
            self.lemma_effective_len(chunk_indices@, options.validate_checksums);
        }
        crate::subset::copy_block_into_window(
            &block,
            out,
            &array_view.array_shape,
            &array_view.subset,
            es,
        );
        Ok(())
    }

    /// The bytes a chunk contributes have exactly the chunk's byte size.
    pub proof fn lemma_effective_len(&self, k: Seq<u64>, validate: bool)
        requires
            self.wf(),
            self.chunk_indices_valid(k),
        ensures
            self.effective_chunk(k, validate) matches Some(d) ==> d.len() == num_elements(
                self.chunk_grid.spec_chunk_extents(k),
            ) * self.spec_es(),
            self.unverified_chunk(k) matches Some(d2) ==> d2.len() == num_elements(
                self.chunk_grid.spec_chunk_extents(k),
            ) * self.spec_es(),
    {
        let extents = self.chunk_grid.spec_chunk_extents(k);
        self.lemma_effective_implies_unverified(k, validate);
        match self.stored_chunk(k) {
            Some(raw) => {
                let m = self.codecs.bytes_to_bytes@.len();
                if raw.len() >= 4 * m && raw.len() - 4 * m == num_elements(extents)
                    * self.spec_es() {
                    crate::codec_chain::lemma_aa_decode_len(
                        self.codecs.array_to_array@,
                        raw.subrange(0, raw.len() - 4 * m),
                        extents,
                        self.spec_es(),
                    );
                }
                crate::codec_chain::lemma_bb_decode_prefix(
                    self.codecs.bytes_to_bytes@.reverse(),
                    raw,
                    validate,
                );
            },
            None => {
            },
        }
    }
    /// Retrieve a region of one chunk and write it into a window of a
    /// caller buffer. Bytes outside the window keep their values.
    pub fn retrieve_chunk_subset_into_array_view_opt(
        &self,
        chunk_indices: &Vec<u64>,
        chunk_subset: &ArraySubset,
        array_view: &ArrayView,
        out: &mut Vec<u8>,
        options: &CodecOptions,
    ) -> (r: Result<(), ArrayError>)
        requires
            self.wf(),
            array_view.wf(),
            old(out)@.len() == num_elements(array_view.array_shape@) * self.spec_es(),
        ensures
            final(out)@.len() == old(out)@.len(),
            array_view.subset.shape@ != chunk_subset.shape@ ==> (r matches Err(
                ArrayError::InvalidArraySubset(sub, b),
            ) && sub.start@ == chunk_subset.start@ && sub.shape@ == chunk_subset.shape@ && b@
                == array_view.subset.shape@),
            r is Ok ==> {
                &&& array_view.subset.shape@ == chunk_subset.shape@
                &&& self.chunk_indices_valid(chunk_indices@)
                &&& chunk_subset.wf()
                &&& chunk_subset.spec_inbounds(
                    self.chunk_grid.spec_chunk_extents(chunk_indices@),
                )
                &&& (num_elements(chunk_subset.shape@) != 0 ==> self.unverified_chunk(
                    chunk_indices@,
                ) is Some)
                &&& (forall|b: int| 0 <= b < num_elements(chunk_subset.shape@) * self.spec_es()
                    ==> final(out)@[crate::subset::element_source_index(
                    b,
                    array_view.array_shape@,
                    array_view.subset.start@,
                    array_view.subset.shape@,
                    self.spec_es(),
                )] == crate::subset::project(
                    self.unverified_chunk(chunk_indices@)->0,
                    self.chunk_grid.spec_chunk_extents(chunk_indices@),
                    chunk_subset.start@,
                    chunk_subset.shape@,
                    self.spec_es(),
                )[b])
                &&& (forall|j: int| 0 <= j < final(out)@.len() && !crate::subset::in_window(
                    j,
                    array_view.array_shape@,
                    array_view.subset.start@,
                    array_view.subset.shape@,
                    self.spec_es(),
                ) ==> final(out)@[j] == old(out)@[j])
            },
            r is Err ==> final(out)@ == old(out)@,
            (array_view.subset.shape@ == chunk_subset.shape@ && self.chunk_indices_valid(
                chunk_indices@,
            ) && chunk_subset.wf() && chunk_subset.spec_inbounds(
                self.chunk_grid.spec_chunk_extents(chunk_indices@),
            ) && !self.spec_whole_chunk(chunk_indices@, chunk_subset) && self.unverified_chunk(
                chunk_indices@,
            ) is Some) ==> (r is Ok || r matches Err(ArrayError::StorageError(_))),
            (array_view.subset.shape@ == chunk_subset.shape@ && self.chunk_indices_valid(
                chunk_indices@,
            ) && self.spec_whole_chunk(chunk_indices@, chunk_subset) && self.effective_chunk(
                chunk_indices@,
                options.validate_checksums,
            ) is Some) ==> (r is Ok || r matches Err(ArrayError::StorageError(_))),
    {
        let dim = chunk_subset.shape().len();
        let mut same = array_view.subset.shape().len() == dim;
        if same {
            for i in 0..dim
                invariant
                    dim == chunk_subset.shape@.len() == array_view.subset.shape@.len(),
                    same <==> (forall|t: int| 0 <= t < i ==> array_view.subset.shape@[t]
                        == chunk_subset.shape@[t]),
            {
                if array_view.subset.shape[i] != chunk_subset.shape[i] {
                    same = false;
                }
            }
        }
        if !same {
            return Err(
                ArrayError::InvalidArraySubset(
                    chunk_subset.clone(),
                    crate::subset::copy_u64_vec(array_view.subset.shape()),
                ),
            );
        }
        proof {
            assert(array_view.subset.shape@ =~= chunk_subset.shape@);
        }
        let rep = match self.chunk_array_representation(chunk_indices) {
            Ok(c) => c,
            Err(e) => {
                return Err(e);
            },
        };
        let mut whole = chunk_subset.start().len() == dim && dim == rep.shape().len();
        if whole {
            for i in 0..dim
                invariant
                    dim == chunk_subset.start@.len() == chunk_subset.shape@.len()
                        == rep.shape@.len(),
                    whole <==> (forall|t: int| 0 <= t < i ==> (chunk_subset.start@[t] == 0
                        && chunk_subset.shape@[t] == rep.shape@[t])),
            {
                if chunk_subset.start[i] != 0 || chunk_subset.shape[i] != rep.shape[i] {
                    whole = false;
                }
            }
        }
        let es = self.data_type.size();
        if whole {
            proof {
                assert(self.spec_whole_chunk(chunk_indices@, chunk_subset)) by {
                    assert(chunk_subset.start@ =~= Seq::new(
                        self.spec_dim(),
                        |i: int| 0u64,
                    ));
                    assert(chunk_subset.shape@ =~= rep.shape@);
                }
            }
            // the window takes the whole chunk: a full decode, with
            // checksums verified, instead of the partial path
            let block = match self.retrieve_chunk_opt(chunk_indices, options) {
                Ok(b) => b,
                Err(e) => {
                    return Err(e);
                },
            };
            proof {
                self.lemma_effective_len(chunk_indices@, options.validate_checksums);
                self.lemma_effective_implies_unverified(
                    chunk_indices@,
                    options.validate_checksums,
                );
                lemma_project_full(block@, rep.shape@, self.spec_es());
            }
            crate::subset::copy_block_into_window(
                &block,
                out,
                &array_view.array_shape,
                &array_view.subset,
                es,
            );
            return Ok(());
        }
        proof {
            assert(!self.spec_whole_chunk(chunk_indices@, chunk_subset)) by {
                if self.spec_whole_chunk(chunk_indices@, chunk_subset) {
                    assert(chunk_subset.start@.len() == self.spec_dim());
                    assert(forall|t: int| 0 <= t < dim ==> (#[trigger] chunk_subset.start@[t]) == 0
                        && chunk_subset.shape@[t] == rep.shape@[t]);
                }
            }
        }
        let block = match self.retrieve_chunk_subset_opt(chunk_indices, chunk_subset, options) {
            Ok(b) => b,
            Err(e) => {
                return Err(e);
            },
        };
        crate::subset::copy_block_into_window(
            &block,
            out,
            &array_view.array_shape,
            &array_view.subset,
            es,
        );
        Ok(())
    }

    /// The region names the chunk's whole extent.
    pub open spec fn spec_whole_chunk(&self, k: Seq<u64>, chunk_subset: &ArraySubset) -> bool {
        &&& chunk_subset.start@ == Seq::new(self.spec_dim(), |i: int| 0u64)
        &&& chunk_subset.shape@ == self.chunk_grid.spec_chunk_extents(k)
    }

    /// Retrieve a region of the array and write it into a window of a
    /// caller buffer. Bytes outside the window keep their values.
    pub fn retrieve_array_subset_into_array_view_opt(
        &self,
        array_subset: &ArraySubset,
        array_view: &ArrayView,
        out: &mut Vec<u8>,
        options: &CodecOptions,
    ) -> (r: Result<(), ArrayError>)
        requires
            self.wf(),
            array_view.wf(),
            1 <= options.concurrent_target,
            old(out)@.len() == num_elements(array_view.array_shape@) * self.spec_es(),
        ensures
            final(out)@.len() == old(out)@.len(),
            array_view.subset.shape@ != array_subset.shape@ ==> (r matches Err(
                ArrayError::InvalidArraySubset(sub, b),
            ) && sub.start@ == array_subset.start@ && sub.shape@ == array_subset.shape@ && b@
                == array_view.subset.shape@),
            r is Ok ==> {
                &&& array_view.subset.shape@ == array_subset.shape@
                &&& array_subset.wf()
                &&& array_subset.spec_inbounds(self.shape@)
                &&& (forall|b: int| 0 <= b < num_elements(array_subset.shape@) * self.spec_es()
                    ==> final(out)@[crate::subset::element_source_index(
                    b,
                    array_view.array_shape@,
                    array_view.subset.start@,
                    array_view.subset.shape@,
                    self.spec_es(),
                )] == self.region_result(array_subset.start@, array_subset.shape@)[b])
                &&& (forall|j: int| 0 <= j < final(out)@.len() && !crate::subset::in_window(
                    j,
                    array_view.array_shape@,
                    array_view.subset.start@,
                    array_view.subset.shape@,
                    self.spec_es(),
                ) ==> final(out)@[j] == old(out)@[j])
            },
            r is Err ==> final(out)@ == old(out)@,
            (array_view.subset.shape@ == array_subset.shape@ && array_subset.wf()
                && array_subset.spec_inbounds(self.shape@) && self.region_reads_ok(
                array_subset.start@,
                array_subset.shape@,
                options.validate_checksums,
            )) ==> (r is Ok || r matches Err(ArrayError::StorageError(_))),
    {
        let dim = array_subset.shape().len();
        let mut same = array_view.subset.shape().len() == dim;
        if same {
            for i in 0..dim
                invariant
                    dim == array_subset.shape@.len() == array_view.subset.shape@.len(),
                    same <==> (forall|t: int| 0 <= t < i ==> array_view.subset.shape@[t]
                        == array_subset.shape@[t]),
            {
                if array_view.subset.shape[i] != array_subset.shape[i] {
                    same = false;
                }
            }
        }
        if !same {
            return Err(
                ArrayError::InvalidArraySubset(
                    array_subset.clone(),
                    crate::subset::copy_u64_vec(array_view.subset.shape()),
                ),
            );
        }
        proof {
            assert(array_view.subset.shape@ =~= array_subset.shape@);
        }
        let block = match self.retrieve_array_subset_opt(array_subset, options) {
            Ok(b) => b,
            Err(e) => {
                return Err(e);
            },
        };
        let es = self.data_type.size();
        crate::subset::copy_block_into_window(
            &block,
            out,
            &array_view.array_shape,
            &array_view.subset,
            es,
        );
        Ok(())
    }

    /// Retrieve every chunk of a grid-space region and write the covering
    /// region into a window of a caller buffer.
    pub fn retrieve_chunks_into_array_view_opt(
        &self,
        chunks: &ArraySubset,
        array_view: &ArrayView,
        out: &mut Vec<u8>,
        options: &CodecOptions,
    ) -> (r: Result<(), ArrayError>)
        requires
            self.wf(),
            array_view.wf(),
            1 <= options.concurrent_target,
            old(out)@.len() == num_elements(array_view.array_shape@) * self.spec_es(),
        ensures
            final(out)@.len() == old(out)@.len(),
            r is Err ==> final(out)@ == old(out)@,
            !(chunks.wf() && chunks.spec_inbounds(self.chunk_grid.spec_grid_shape())) ==> (r
                matches Err(ArrayError::InvalidArraySubset(sub, b)) && sub.start@ == chunks.start@
                && sub.shape@ == chunks.shape@ && b@ == self.chunk_grid.spec_grid_shape()),
            (chunks.wf() && chunks.spec_inbounds(self.chunk_grid.spec_grid_shape())
                && num_elements(chunks.shape@) == 0) ==> (r is Ok && final(out)@ == old(out)@),
            (chunks.wf() && chunks.spec_inbounds(self.chunk_grid.spec_grid_shape())
                && num_elements(chunks.shape@) != 0 && array_view.subset.shape@
                != self.spec_cover_shape(chunks.start@, chunks.shape@)) ==> (r matches Err(
                ArrayError::InvalidArraySubset(_, b),
            ) && b@ == array_view.subset.shape@),
            (r is Ok && num_elements(chunks.shape@) != 0) ==> {
                &&& chunks.wf()
                &&& chunks.spec_inbounds(self.chunk_grid.spec_grid_shape())
                &&& array_view.subset.shape@ == self.spec_cover_shape(chunks.start@, chunks.shape@)
                &&& (forall|b: int| 0 <= b < num_elements(array_view.subset.shape@)
                    * self.spec_es() ==> final(out)@[crate::subset::element_source_index(
                    b,
                    array_view.array_shape@,
                    array_view.subset.start@,
                    array_view.subset.shape@,
                    self.spec_es(),
                )] == self.region_result(
                    self.spec_cover_start(chunks.start@, chunks.shape@),
                    self.spec_cover_shape(chunks.start@, chunks.shape@),
                )[b])
                &&& (forall|j: int| 0 <= j < final(out)@.len() && !crate::subset::in_window(
                    j,
                    array_view.array_shape@,
                    array_view.subset.start@,
                    array_view.subset.shape@,
                    self.spec_es(),
                ) ==> final(out)@[j] == old(out)@[j])
            },
            (chunks.wf() && chunks.spec_inbounds(self.chunk_grid.spec_grid_shape())
                && array_view.subset.shape@ == self.spec_cover_shape(chunks.start@, chunks.shape@)
                && (forall|k: Seq<u64>| chunks.spec_contains(k) ==> (
                #[trigger] self.effective_chunk(k, options.validate_checksums)) is Some)) ==> (r
                is Ok || r matches Err(ArrayError::StorageError(_))),
    {
        let dim = self.shape.len();
        let grid_shape = self.chunk_grid.grid_shape();
        if chunks.start().len() != dim || chunks.shape().len() != dim || !chunks.inbounds(
            &grid_shape,
        ) {
            return Err(ArrayError::InvalidArraySubset(chunks.clone(), grid_shape));
        }
        // a region of no chunks asks for nothing: done before any store call
        // or shape comparison
        proof {
            assert forall|i: int| 0 <= i < self.spec_dim() implies
                #[trigger] self.chunk_grid.spec_grid_shape()[i] <= self.shape@[i] by {
                crate::chunk_grid::lemma_ceil_div_split(
                    self.shape@[i] as int,
                    self.chunk_grid.chunk_shape@[i] as int,
                );
            }
            crate::subset::lemma_num_elements_monotone(
                chunks.shape@,
                self.chunk_grid.spec_grid_shape(),
            );
            crate::subset::lemma_num_elements_monotone(
                self.chunk_grid.spec_grid_shape(),
                self.shape@,
            );
            crate::codec::lemma_chunk_counts(self.shape@, self.spec_es());
        }
        let num_chunks = crate::subset::product_u64(chunks.shape());
        if num_chunks == 0 {
            return Ok(());
        }
        let cover = self.chunks_subset(chunks);
        proof {
            if forall|k: Seq<u64>| chunks.spec_contains(k) ==> (#[trigger] self.effective_chunk(
                k,
                options.validate_checksums,
            )) is Some {
                assert(self.region_reads_ok(
                    cover.start@,
                    cover.shape@,
                    options.validate_checksums,
                )) by {
                    assert forall|g: Seq<u64>| (g.len() == self.spec_dim() && (forall|i: int|
                        0 <= i < g.len() ==> cover.start@[i] <= #[trigger] g[i] < cover.start@[i]
                            + cover.shape@[i])) implies (#[trigger] self.effective_chunk(
                        self.chunk_grid.spec_owning_chunk(g),
                        options.validate_checksums,
                    )) is Some by {
                        assert forall|i: int| 0 <= i < g.len() implies (#[trigger] g[i])
                            < self.shape@[i] by {
                            assert(cover.start@[i] + cover.shape@[i] <= self.shape@[i]);
                        }
                        assert(cover.spec_contains(g));
                        assert(chunks.spec_contains(self.chunk_grid.spec_owning_chunk(g)));
                    }
                }
            }
        }
        if array_view.subset.shape().len() != dim {
            return Err(
                ArrayError::InvalidArraySubset(
                    cover,
                    crate::subset::copy_u64_vec(array_view.subset.shape()),
                ),
            );
        }
        let mut same = true;
        for i in 0..dim
            invariant
                dim == cover.shape@.len() == array_view.subset.shape@.len()
                    == self.shape@.len(),
                same <==> (forall|t: int| 0 <= t < i ==> array_view.subset.shape@[t]
                    == cover.shape@[t]),
        {
            if array_view.subset.shape[i] != cover.shape[i] {
                same = false;
            }
        }
        if !same {
            return Err(
                ArrayError::InvalidArraySubset(
                    cover,
                    crate::subset::copy_u64_vec(array_view.subset.shape()),
                ),
            );
        }
        proof {
            assert(array_view.subset.shape@ =~= cover.shape@);
        }
        let block = match self.retrieve_array_subset_opt(&cover, options) {
            Ok(b) => b,
            Err(e) => {
                return Err(e);
            },
        };
        let es = self.data_type.size();
        crate::subset::copy_block_into_window(
            &block,
            out,
            &array_view.array_shape,
            &array_view.subset,
            es,
        );
        Ok(())
    }

    /// A partial decoder for one chunk: an object answering sub-region
    /// decode requests against the store.
    pub fn partial_decoder_opt<'a>(
        &'a self,
        chunk_indices: &Vec<u64>,
        _options: &CodecOptions,
    ) -> (r: Result<ArrayPartialDecoder<'a, TStorage>, ArrayError>)
        requires
            self.wf(),
        ensures
            r is Ok <==> self.chunk_indices_valid(chunk_indices@),
            r matches Ok(d) ==> d.wf() && d.array == self && d.chunk_indices@ == chunk_indices@,
    {
        match self.chunk_array_representation(chunk_indices) {
            Ok(_) => Ok(
                ArrayPartialDecoder {
                    array: self,
                    chunk_indices: crate::subset::copy_u64_vec(chunk_indices),
                },
            ),
            Err(e) => Err(e),
        }
    }

    /// A partial decoder for one chunk, with sequential options.
    pub fn partial_decoder<'a>(&'a self, chunk_indices: &Vec<u64>) -> (r: Result<
        ArrayPartialDecoder<'a, TStorage>,
        ArrayError,
    >)
        requires
            self.wf(),
        ensures
            r is Ok <==> self.chunk_indices_valid(chunk_indices@),
            r matches Ok(d) ==> d.wf() && d.array == self && d.chunk_indices@ == chunk_indices@,
    {
        let options = CodecOptions::new(1);
        self.partial_decoder_opt(chunk_indices, &options)
    }

    /// A read of any region is a pure function of the store state and the
    /// request: two reads of the same region over the same store yield the
    /// same bytes, whatever concurrency budget or codec options each used.
    pub proof fn lemma_read_deterministic(
        &self,
        start: Seq<u64>,
        shape: Seq<u64>,
        v1: Seq<u8>,
        v2: Seq<u8>,
    )
        requires
            v1 == self.region_result(start, shape),
            v2 == self.region_result(start, shape),
        ensures
            v1 == v2,
    {
    }

    /// Partial decoding projects the full decode: a chunk's bytes along the
    /// partial-decode path agree with its whole-blob decode wherever the
    /// whole-blob decode succeeds, so any sub-region read equals the
    /// matching projection of the full chunk read.
    pub proof fn lemma_partial_projects_full(
        &self,
        k: Seq<u64>,
        start: Seq<u64>,
        shape: Seq<u64>,
        validate: bool,
    )
        requires
            self.effective_chunk(k, validate) is Some,
        ensures
            crate::subset::project(
                self.unverified_chunk(k)->0,
                self.chunk_grid.spec_chunk_extents(k),
                start,
                shape,
                self.spec_es(),
            ) == crate::subset::project(
                self.effective_chunk(k, validate)->0,
                self.chunk_grid.spec_chunk_extents(k),
                start,
                shape,
                self.spec_es(),
            ),
    {
        self.lemma_effective_implies_unverified(k, validate);
    }

    /// An absent chunk reads as the fill value repeated over the chunk.
    pub proof fn lemma_absent_chunk_fill(&self, k: Seq<u64>, validate: bool)
        requires
            self.stored_chunk(k) is None,
        ensures
            self.effective_chunk(k, validate) == Some(
                repeat_fill(
                    self.fill_value.0@,
                    num_elements(self.chunk_grid.spec_chunk_extents(k)),
                ),
            ),
            self.unverified_chunk(k) == Some(
                repeat_fill(
                    self.fill_value.0@,
                    num_elements(self.chunk_grid.spec_chunk_extents(k)),
                ),
            ),
    {
    }

    /// The region of exactly one chunk reads as that chunk's bytes.
    pub proof fn lemma_chunk_tile(&self, k: Seq<u64>)
        requires
            self.wf(),
            self.chunk_indices_valid(k),
            self.unverified_chunk(k) is Some,
        ensures
            self.region_result(
                self.chunk_grid.spec_chunk_origin(k),
                self.chunk_grid.spec_chunk_extents(k),
            ) == self.unverified_chunk(k)->0,
    {
        let origin = self.chunk_grid.spec_chunk_origin(k);
        let extents = self.chunk_grid.spec_chunk_extents(k);
        let d = self.unverified_chunk(k)->0;
        let es = self.spec_es() as int;
        let lhs = self.region_result(origin, extents);
        self.lemma_effective_len(k, true);
        let dim = self.spec_dim() as int;
        assert forall|i: int| 0 <= i < dim implies origin[i] + extents[i] <= self.shape@[i] by {
            crate::chunk_grid::lemma_chunk_axis(
                self.shape@[i] as int,
                self.chunk_grid.chunk_shape@[i] as int,
                k[i] as int,
            );
        }
        assert forall|b: int| 0 <= b < lhs.len() implies lhs[b] == d[b] by {
            self.lemma_region_byte(origin, extents, b);
            let g = vadd(origin, coord_of(b / es, extents));
            self.lemma_owning(g, k);
            assert(self.chunk_grid.spec_owning_chunk(g) == k) by {
                assert forall|i: int| 0 <= i < dim implies origin[i] <= #[trigger] g[i] < origin[i]
                    + extents[i] by {
                    assert(coord_of(b / es, extents)[i] < extents[i]);
                }
            }
            assert(self.chunk_grid.spec_within_chunk(g) =~= coord_of(b / es, extents)) by {
                assert forall|i: int| 0 <= i < dim implies self.chunk_grid.spec_within_chunk(g)[i]
                    == coord_of(b / es, extents)[i] by {
                    assert(self.chunk_grid.spec_within_chunk(g) =~= crate::subset::vsub(g, origin));
                }
            }
            vstd::arithmetic::div_mod::lemma_fundamental_div_mod(b, es);
            assert(0 <= b / es < num_elements(extents)) by (nonlinear_arith)
                requires
                    b == (b / es) * es + b % es,
                    0 <= b % es < es,
                    0 <= b,
                    b < num_elements(extents) * es,
                    1 <= es,
            ;
            crate::subset::lemma_linear_index_bounds(coord_of(b / es, extents), extents);
            assert(linear_index(coord_of(b / es, extents), extents) == b / es) by {
                crate::subset::lemma_coord_of_roundtrip(b / es, extents);
            }
            assert(self.element_bytes(g)[b % es] == d[(b / es) * es + b % es]);
            assert((b / es) * es + b % es == b) by {
                vstd::arithmetic::div_mod::lemma_fundamental_div_mod(b, es);
            }
        }
        assert(lhs =~= d);
    }

    /// Carving a sub-region out of a read region equals reading the
    /// sub-region directly: element by element, both take the same bytes
    /// from the same owning chunks.
    pub proof fn lemma_region_carve(
        &self,
        cstart: Seq<u64>,
        cshape: Seq<u64>,
        rstart: Seq<u64>,
        rshape: Seq<u64>,
    )
        requires
            self.wf(),
            cstart.len() == self.spec_dim(),
            cshape.len() == self.spec_dim(),
            rstart.len() == self.spec_dim(),
            rshape.len() == self.spec_dim(),
            forall|i: int| 0 <= i < cshape.len() ==> cstart[i] + cshape[i] <= self.shape@[i],
            forall|i: int| 0 <= i < rshape.len() ==> cstart[i] <= rstart[i] && rstart[i] + rshape[i]
                <= cstart[i] + cshape[i],
        ensures
            crate::subset::project(
                self.region_result(cstart, cshape),
                cshape,
                crate::subset::vsub(rstart, cstart),
                rshape,
                self.spec_es(),
            ) == self.region_result(rstart, rshape),
    {
        let es = self.spec_es() as int;
        let esn = self.spec_es();
        let dim = self.spec_dim() as int;
        let inner_start = crate::subset::vsub(rstart, cstart);
        let lhs = crate::subset::project(
            self.region_result(cstart, cshape),
            cshape,
            inner_start,
            rshape,
            esn,
        );
        let rhs = self.region_result(rstart, rshape);
        assert forall|i: int| 0 <= i < dim implies inner_start[i] + rshape[i] <= cshape[i] by {}
        assert forall|b: int| 0 <= b < lhs.len() implies lhs[b] == rhs[b] by {
            self.lemma_region_byte(rstart, rshape, b);
            crate::subset::lemma_window_byte(b, cshape, inner_start, rshape, esn);
            let esi = crate::subset::element_source_index(b, cshape, inner_start, rshape, esn);
            self.lemma_region_byte(cstart, cshape, esi);
            let p = coord_of(b / es, rshape);
            let lw = linear_index(vadd(inner_start, p), cshape);
            vstd::arithmetic::div_mod::lemma_fundamental_div_mod(b, es);
            vstd::arithmetic::div_mod::lemma_fundamental_div_mod_converse(
                esi,
                es,
                lw,
                b % es,
            );
            assert(esi / es == lw && esi % es == b % es);
            crate::subset::lemma_linear_coord_roundtrip(vadd(inner_start, p), cshape);
            assert(coord_of(lw, cshape) == vadd(inner_start, p));
            assert(vadd(cstart, vadd(inner_start, p)) =~= vadd(rstart, p)) by {
                assert forall|i: int| 0 <= i < dim implies vadd(cstart, vadd(inner_start, p))[i]
                    == vadd(rstart, p)[i] by {
                    assert(p[i] < rshape[i]);
                    assert(cstart[i] <= rstart[i]);
                    assert(rstart[i] + rshape[i] <= cstart[i] + cshape[i]);
                    assert(rstart[i] + rshape[i] <= self.shape@[i]);
                }
            }
        }
        assert(lhs =~= rhs);
    }
}

/// A partial decoder bound to one chunk of an array: it answers sub-region
/// decode requests by reading that chunk from the store on demand.
pub struct ArrayPartialDecoder<'a, TStorage> {
    pub array: &'a Array<TStorage>,
    pub chunk_indices: Vec<u64>,
}

impl<'a, TStorage: ReadableStorageTraits> ArrayPartialDecoder<'a, TStorage> {
    /// The decoder names a chunk of a consistent array.
    pub open spec fn wf(&self) -> bool {
        &&& self.array.wf()
        &&& self.array.chunk_indices_valid(self.chunk_indices@)
    }

    /// Decode the requested regions of the chunk, each a projection of the
    /// chunk's bytes.
    pub fn partial_decode(&self, decoded_regions: &Vec<ArraySubset>, options: &CodecOptions) -> (r:
        Result<Vec<Vec<u8>>, ArrayError>)
        requires
            self.wf(),
        ensures
            r matches Ok(v) ==> {
                &&& v@.len() == decoded_regions@.len()
                &&& forall|i: int| 0 <= i < v@.len() ==> ((#[trigger] decoded_regions@[i]).wf()
                    && decoded_regions@[i].spec_inbounds(
                    self.array.chunk_grid.spec_chunk_extents(self.chunk_indices@),
                ) && v@[i]@ == crate::subset::project(
                    self.array.unverified_chunk(self.chunk_indices@)->0,
                    self.array.chunk_grid.spec_chunk_extents(self.chunk_indices@),
                    decoded_regions@[i].start@,
                    decoded_regions@[i].shape@,
                    self.array.spec_es(),
                ))
            },
            (self.array.unverified_chunk(self.chunk_indices@) is Some && forall|i: int|
                0 <= i < decoded_regions@.len() ==> ((#[trigger] decoded_regions@[i]).wf()
                    && decoded_regions@[i].spec_inbounds(
                    self.array.chunk_grid.spec_chunk_extents(self.chunk_indices@),
                ))) ==> (r is Ok || r matches Err(ArrayError::StorageError(_))),
    {
        let n = decoded_regions.len();
        let mut out: Vec<Vec<u8>> = Vec::new();
        for t in 0..n
            invariant
                self.wf(),
                n == decoded_regions@.len(),
                out@.len() == t,
                forall|i: int| 0 <= i < t ==> ((#[trigger] decoded_regions@[i]).wf()
                    && decoded_regions@[i].spec_inbounds(
                    self.array.chunk_grid.spec_chunk_extents(self.chunk_indices@),
                ) && out@[i]@ == crate::subset::project(
                    self.array.unverified_chunk(self.chunk_indices@)->0,
                    self.array.chunk_grid.spec_chunk_extents(self.chunk_indices@),
                    decoded_regions@[i].start@,
                    decoded_regions@[i].shape@,
                    self.array.spec_es(),
                )),
        {
            match self.array.retrieve_chunk_subset_opt(
                &self.chunk_indices,
                &decoded_regions[t],
                options,
            ) {
                Ok(b) => {
                    out.push(b);
                },
                Err(e) => {
                    return Err(e);
                },
            }
        }
        Ok(out)
    }
}

/// Whether every array-to-array codec of the chain suits `dim` dimensions.
pub fn check_codecs(codecs: &CodecChain, dim: usize) -> (r: bool)
    ensures
        r == codecs.wf(dim as nat),
{
    let n = codecs.array_to_array.len();
    for i in 0..n
        invariant
            n == codecs.array_to_array@.len(),
            forall|k: int| 0 <= k < i ==> (#[trigger] codecs.array_to_array@[k]).wf(dim as nat),
    {
        let ok = match &codecs.array_to_array[i] {
            crate::codec_chain::ArrayToArrayCodec::Transpose(t) => {
                if t.order.order.len() != dim || t.order.inverse.len() != dim {
                    false
                } else {
                    check_permutation_pair(&t.order.order, &t.order.inverse)
                }
            },
        };
        if !ok {
            return false;
        }
    }
    true
}

/// Whether two index vectors are mutually inverse permutations.
pub fn check_permutation_pair(order: &Vec<usize>, inverse: &Vec<usize>) -> (r: bool)
    requires
        order@.len() == inverse@.len(),
    ensures
        r == crate::codec::is_permutation_pair(order@, inverse@, order@.len()),
{
    let n = order.len();
    for i in 0..n
        invariant
            n == order@.len() == inverse@.len(),
            forall|k: int| 0 <= k < i ==> (#[trigger] order@[k]) < n,
            forall|k: int| 0 <= k < i ==> (#[trigger] inverse@[k]) < n,
            forall|k: int| 0 <= k < i ==> #[trigger] inverse@[order@[k] as int] == k,
            forall|k: int| 0 <= k < i ==> #[trigger] order@[inverse@[k] as int] == k,
    {
        if order[i] >= n || inverse[i] >= n {
            return false;
        }
        if inverse[order[i]] != i || order[inverse[i]] != i {
            return false;
        }
    }
    true
}


/// A destination window for decoded bytes: the shape of the containing
/// output buffer and the region of it being written. The caller owns the
/// backing buffer and passes it alongside.
#[derive(Debug)]
pub struct ArrayView {
    pub array_shape: Vec<u64>,
    pub subset: ArraySubset,
}

impl ArrayView {
    /// The window fits inside the containing shape.
    pub open spec fn wf(&self) -> bool {
        &&& self.subset.wf()
        &&& 1 <= self.array_shape@.len()
        &&& self.subset.spec_inbounds(self.array_shape@)
    }

    /// Create a view over a window of a buffer of the given shape.
    pub fn new(array_shape: Vec<u64>, subset: ArraySubset) -> (r: Result<ArrayView, String>)
        ensures
            r matches Ok(v) ==> v.wf() && v.array_shape@ == array_shape@ && v.subset.start@
                == subset.start@ && v.subset.shape@ == subset.shape@,
            r is Ok <==> (subset.wf() && 1 <= array_shape@.len() && subset.spec_inbounds(
                array_shape@,
            )),
    {
        if subset.start().len() != subset.shape().len() || array_shape.len() == 0
            || !subset.inbounds(&array_shape) {
            return Err(String::new());
        }
        Ok(ArrayView { array_shape, subset })
    }
}

/// A zeroed byte buffer of the given length.
pub fn zero_vec(n: usize) -> (r: Vec<u8>)
    ensures
        r@.len() == n,
        forall|i: int| 0 <= i < n ==> r@[i] == 0u8,
{
    let mut r: Vec<u8> = Vec::new();
    for t in 0..n
        invariant
            r@.len() == t,
            forall|i: int| 0 <= i < t ==> r@[i] == 0u8,
    {
        r.push(0);
    }
    r
}

/// Projecting the whole of a chunk out of itself yields the chunk's bytes.
pub proof fn lemma_project_full(data: Seq<u8>, shape: Seq<u64>, es: nat)
    requires
        1 <= es,
        data.len() == num_elements(shape) * es,
    ensures
        crate::subset::project(data, shape, Seq::new(shape.len(), |i: int| 0u64), shape, es)
            == data,
{
    let zeros = Seq::new(shape.len(), |i: int| 0u64);
    let lhs = crate::subset::project(data, shape, zeros, shape, es);
    assert forall|b: int| 0 <= b < lhs.len() implies lhs[b] == data[b] by {
        vstd::arithmetic::div_mod::lemma_fundamental_div_mod(b, es as int);
        let e = b / es as int;
        assert(0 <= e < num_elements(shape)) by (nonlinear_arith)
            requires
                b == e * es + (b % es as int),
                0 <= (b % es as int) < es,
                0 <= b,
                b < num_elements(shape) * es,
                1 <= es,
        ;
        crate::subset::lemma_coord_of_roundtrip(e, shape);
        assert(vadd(zeros, coord_of(e, shape)) =~= coord_of(e, shape));
        assert(crate::subset::element_source_index(b, shape, zeros, shape, es) == b);
    }
    assert(lhs =~= data);
}

/// Projecting a region out of a chunk filled with a repeated element
/// pattern yields the pattern repeated over the region.
pub proof fn lemma_project_repeat(
    fill: Seq<u8>,
    parent_shape: Seq<u64>,
    start: Seq<u64>,
    shape: Seq<u64>,
    es: nat,
)
    requires
        es == fill.len(),
        1 <= es,
        start.len() == shape.len(),
        shape.len() == parent_shape.len(),
        forall|i: int| 0 <= i < start.len() ==> start[i] + shape[i] <= parent_shape[i],
    ensures
        crate::subset::project(
            repeat_fill(fill, num_elements(parent_shape)),
            parent_shape,
            start,
            shape,
            es,
        ) == repeat_fill(fill, num_elements(shape)),
{
    let big = repeat_fill(fill, num_elements(parent_shape));
    let lhs = crate::subset::project(big, parent_shape, start, shape, es);
    let rhs = repeat_fill(fill, num_elements(shape));
    assert forall|b: int| 0 <= b < lhs.len() implies lhs[b] == rhs[b] by {
        crate::subset::lemma_window_byte(b, parent_shape, start, shape, es);
        let esi = crate::subset::element_source_index(b, parent_shape, start, shape, es);
        vstd::arithmetic::div_mod::lemma_fundamental_div_mod(b, es as int);
        let lw = linear_index(
            vadd(start, coord_of(b / es as int, shape)),
            parent_shape,
        );
        vstd::arithmetic::div_mod::lemma_fundamental_div_mod_converse(
            esi,
            es as int,
            lw,
            b % es as int,
        );
        assert(big[esi] == fill[esi % es as int]);
    }
    assert(lhs =~= rhs);
}

} // verus!
