//! End-to-end read scenarios over an in-memory store.

use std::sync::Arc;
use zarrs::array::Array;
use zarrs::byte_range::ByteRange;
use zarrs::codec::{BytesPartialDecoderTraits, Crc32cPartialDecoder, TransposeOrder};
use zarrs::codec::{BytesCodec, ChunkRepresentation, Crc32cCodec, DataType, FillValue};
use zarrs::codec_chain::{BytesToBytesCodec, CodecChain};
use zarrs::concurrency::CodecOptions;
use zarrs::store::{MemoryStore, ReadableStorageTraits, WritableStorageTraits};
use zarrs::store_key::{data_key, ChunkKeyEncoding, NodePath};
use zarrs::subset::ArraySubset;

fn plain_chain() -> CodecChain {
    CodecChain::new(Vec::new(), BytesCodec::new(), Vec::new())
}

fn crc_chain() -> CodecChain {
    CodecChain::new(
        Vec::new(),
        BytesCodec::new(),
        vec![BytesToBytesCodec::Crc32c(Crc32cCodec::new())],
    )
}

fn store_encoded(
    store: &mut MemoryStore,
    chain: &CodecChain,
    chunk_shape: Vec<u64>,
    data_type: DataType,
    fill: Vec<u8>,
    coords: Vec<u64>,
    data: Vec<u8>,
) {
    let rep = ChunkRepresentation::new(chunk_shape, data_type, FillValue::new(fill)).unwrap();
    let encoded = chain
        .encode(data, &rep, &CodecOptions::new(1))
        .unwrap();
    let path = NodePath::new("/").unwrap();
    let enc = ChunkKeyEncoding::new_default('/');
    zarrs::store::store_chunk(store, &path, &coords, &enc, &encoded).unwrap();
}

fn u32s_to_ne_bytes(values: &[u32]) -> Vec<u8> {
    let mut out = Vec::new();
    for v in values {
        out.extend_from_slice(&v.to_ne_bytes());
    }
    out
}

#[test]
fn fill_only_read() {
    // array [4,4], regular chunks [2,2], uint32, fill 0: an empty store
    // reads as 64 zero bytes
    let store = MemoryStore::new();
    let array = Array::new(
        Arc::new(store),
        NodePath::new("/").unwrap(),
        vec![4, 4],
        DataType::UInt32,
        FillValue::new(vec![0, 0, 0, 0]),
        vec![2, 2],
        ChunkKeyEncoding::new_default('/'),
        plain_chain(),
    )
    .unwrap();
    let subset = ArraySubset::new(vec![0, 0], vec![4, 4]);
    let out = array.retrieve_array_subset(&subset).unwrap();
    assert_eq!(out.len(), 64);
    assert!(out.iter().all(|b| *b == 0));
}

#[test]
fn single_chunk_partial() {
    // array [4,4], chunks [4,4], uint32, elements 0..16 stored encoded;
    // the subset rows 1..3 of column 0 reads elements 4 and 8
    let mut store = MemoryStore::new();
    let elements: Vec<u32> = (0..16).collect();
    store_encoded(
        &mut store,
        &plain_chain(),
        vec![4, 4],
        DataType::UInt32,
        vec![0, 0, 0, 0],
        vec![0, 0],
        u32s_to_ne_bytes(&elements),
    );
    let array = Array::new(
        Arc::new(store),
        NodePath::new("/").unwrap(),
        vec![4, 4],
        DataType::UInt32,
        FillValue::new(vec![0, 0, 0, 0]),
        vec![4, 4],
        ChunkKeyEncoding::new_default('/'),
        plain_chain(),
    )
    .unwrap();
    let subset = ArraySubset::new(vec![1, 0], vec![2, 1]);
    let out = array.retrieve_chunk_subset(&vec![0, 0], &subset).unwrap();
    assert_eq!(out, u32s_to_ne_bytes(&[4, 8]));
}

fn four_chunk_store() -> MemoryStore {
    let mut store = MemoryStore::new();
    for (coords, i) in [
        (vec![0u64, 0u64], 0u8),
        (vec![0, 1], 4),
        (vec![1, 0], 8),
        (vec![1, 1], 12),
    ] {
        store_encoded(
            &mut store,
            &plain_chain(),
            vec![2, 2],
            DataType::UInt8,
            vec![0],
            coords,
            vec![i, i + 1, i + 2, i + 3],
        );
    }
    store
}

fn four_chunk_array(store: MemoryStore) -> Array<MemoryStore> {
    Array::new(
        Arc::new(store),
        NodePath::new("/").unwrap(),
        vec![4, 4],
        DataType::UInt8,
        FillValue::new(vec![0]),
        vec![2, 2],
        ChunkKeyEncoding::new_default('/'),
        plain_chain(),
    )
    .unwrap()
}

#[test]
fn multi_chunk_assembly() {
    // four 2x2 uint8 chunks assemble in row-major order
    let array = four_chunk_array(four_chunk_store());
    let subset = ArraySubset::new(vec![0, 0], vec![4, 4]);
    let out = array.retrieve_array_subset(&subset).unwrap();
    assert_eq!(
        out,
        vec![0, 1, 4, 5, 2, 3, 6, 7, 8, 9, 12, 13, 10, 11, 14, 15]
    );
}

#[test]
fn missing_middle_chunk() {
    // deleting chunk (0,1) turns its quadrant into fill; the rest unchanged
    let mut store = four_chunk_store();
    let path = NodePath::new("/").unwrap();
    let enc = ChunkKeyEncoding::new_default('/');
    let erased = zarrs::store::erase_chunk(&mut store, &path, &vec![0, 1], &enc).unwrap();
    assert!(erased);
    let array = four_chunk_array(store);
    let subset = ArraySubset::new(vec![0, 0], vec![4, 4]);
    let out = array.retrieve_array_subset(&subset).unwrap();
    assert_eq!(
        out,
        vec![0, 1, 0, 0, 2, 3, 0, 0, 8, 9, 12, 13, 10, 11, 14, 15]
    );
}

#[test]
fn checksum_trailer_invisible() {
    // a pipeline appending a four-byte checksum trailer: a partial decode of
    // the full chunk matches the pipeline without the trailer
    let elements: Vec<u32> = (100..116).collect();
    let data = u32s_to_ne_bytes(&elements);

    let mut store_plain = MemoryStore::new();
    store_encoded(
        &mut store_plain,
        &plain_chain(),
        vec![4, 4],
        DataType::UInt32,
        vec![0, 0, 0, 0],
        vec![0, 0],
        data.clone(),
    );
    let array_plain = Array::new(
        Arc::new(store_plain),
        NodePath::new("/").unwrap(),
        vec![4, 4],
        DataType::UInt32,
        FillValue::new(vec![0, 0, 0, 0]),
        vec![4, 4],
        ChunkKeyEncoding::new_default('/'),
        plain_chain(),
    )
    .unwrap();

    let mut store_crc = MemoryStore::new();
    store_encoded(
        &mut store_crc,
        &crc_chain(),
        vec![4, 4],
        DataType::UInt32,
        vec![0, 0, 0, 0],
        vec![0, 0],
        data.clone(),
    );
    let array_crc = Array::new(
        Arc::new(store_crc),
        NodePath::new("/").unwrap(),
        vec![4, 4],
        DataType::UInt32,
        FillValue::new(vec![0, 0, 0, 0]),
        vec![4, 4],
        ChunkKeyEncoding::new_default('/'),
        crc_chain(),
    )
    .unwrap();

    let full = ArraySubset::new(vec![0, 0], vec![4, 4]);
    let a = array_plain
        .retrieve_chunk_subset(&vec![0, 0], &full)
        .unwrap();
    let b = array_crc.retrieve_chunk_subset(&vec![0, 0], &full).unwrap();
    assert_eq!(a, b);
    assert_eq!(a, data);
}

#[test]
fn trailer_suffix_range_masked() {
    // a suffix byte range that would address only the checksum trailer
    // yields zero bytes through the checksum partial decoder
    let raw: Vec<u8> = vec![1, 2, 3, 4, 5, 0xAA, 0xBB, 0xCC, 0xDD];
    let decoder = Crc32cPartialDecoder::new(raw);
    let ranges = vec![ByteRange::FromEnd(0, Some(4))];
    let out = decoder
        .partial_decode(&ranges, &CodecOptions::new(1))
        .unwrap()
        .unwrap();
    assert_eq!(out.len(), 1);
    assert_eq!(out[0].len(), 0);
}

#[test]
fn concurrent_equivalence() {
    // a four-dimensional read with target concurrency one equals the same
    // read with target concurrency sixteen, byte for byte
    let mut store = MemoryStore::new();
    let mut value = 0u8;
    for c0 in 0..2u64 {
        for c1 in 0..2u64 {
            let mut data = Vec::new();
            for _ in 0..16 {
                data.push(value);
                value = value.wrapping_add(3);
            }
            store_encoded(
                &mut store,
                &plain_chain(),
                vec![1, 2, 2, 4],
                DataType::UInt8,
                vec![0],
                vec![c0, c1, 0, 0],
                data,
            );
        }
    }
    let array = Array::new(
        Arc::new(store),
        NodePath::new("/").unwrap(),
        vec![2, 4, 2, 4],
        DataType::UInt8,
        FillValue::new(vec![0]),
        vec![1, 2, 2, 4],
        ChunkKeyEncoding::new_default('/'),
        plain_chain(),
    )
    .unwrap();
    let subset = ArraySubset::new(vec![0, 1, 0, 1], vec![2, 3, 2, 2]);
    let sequential = array
        .retrieve_array_subset_opt(&subset, &CodecOptions::new(1))
        .unwrap();
    let concurrent = array
        .retrieve_array_subset_opt(&subset, &CodecOptions::new(16))
        .unwrap();
    assert_eq!(sequential, concurrent);
}

#[test]
fn retrieve_chunks_tiles_of_retrieve_chunk() {
    // retrieve_chunks over the full grid equals the row-major tile assembly
    // of the per-chunk reads
    let array = four_chunk_array(four_chunk_store());
    let chunks = ArraySubset::new(vec![0, 0], vec![2, 2]);
    let all = array.retrieve_chunks(&chunks).unwrap();
    let c00 = array.retrieve_chunk(&vec![0, 0]).unwrap();
    let c01 = array.retrieve_chunk(&vec![0, 1]).unwrap();
    let c10 = array.retrieve_chunk(&vec![1, 0]).unwrap();
    let c11 = array.retrieve_chunk(&vec![1, 1]).unwrap();
    let mut tiled = vec![0u8; 16];
    let quadrants = [
        (&c00, 0usize, 0usize),
        (&c01, 0, 2),
        (&c10, 2, 0),
        (&c11, 2, 2),
    ];
    for (chunk, r0, col0) in quadrants {
        for r in 0..2 {
            for c in 0..2 {
                tiled[(r0 + r) * 4 + col0 + c] = chunk[r * 2 + c];
            }
        }
    }
    assert_eq!(all, tiled);
}

#[test]
fn retrieve_subset_carves_retrieve_chunks() {
    // an interior region equals the matching window of the covering chunks
    let array = four_chunk_array(four_chunk_store());
    let chunks = ArraySubset::new(vec![0, 0], vec![2, 2]);
    let all = array.retrieve_chunks(&chunks).unwrap();
    let subset = ArraySubset::new(vec![1, 1], vec![2, 2]);
    let carved = array.retrieve_array_subset(&subset).unwrap();
    let mut expected = Vec::new();
    for r in 1..3 {
        for c in 1..3 {
            expected.push(all[r * 4 + c]);
        }
    }
    assert_eq!(carved, expected);
}

#[test]
fn chunk_if_exists_and_fill() {
    // a stored chunk reads back; an absent one reads as nothing or as fill
    let array = four_chunk_array(four_chunk_store());
    assert_eq!(
        array.retrieve_chunk_if_exists(&vec![0, 0]).unwrap(),
        Some(vec![0, 1, 2, 3])
    );
    let mut store = four_chunk_store();
    let path = NodePath::new("/").unwrap();
    let enc = ChunkKeyEncoding::new_default('/');
    zarrs::store::erase_chunk(&mut store, &path, &vec![1, 1], &enc).unwrap();
    let array2 = four_chunk_array(store);
    assert_eq!(array2.retrieve_chunk_if_exists(&vec![1, 1]).unwrap(), None);
    assert_eq!(array2.retrieve_chunk(&vec![1, 1]).unwrap(), vec![0, 0, 0, 0]);
}

#[test]
fn corrupt_checksum_detected() {
    // flipping a trailer byte makes the validated whole-chunk decode fail
    let mut store = MemoryStore::new();
    store_encoded(
        &mut store,
        &crc_chain(),
        vec![2, 2],
        DataType::UInt8,
        vec![0],
        vec![0, 0],
        vec![9, 8, 7, 6],
    );
    let path = NodePath::new("/").unwrap();
    let enc = ChunkKeyEncoding::new_default('/');
    let key = data_key(&path, &vec![0, 0], &enc);
    let mut raw = store.get(&key).unwrap().unwrap();
    let last = raw.len() - 1;
    raw[last] ^= 0xFF;
    store.set(&key, &raw).unwrap();
    let array = Array::new(
        Arc::new(store),
        NodePath::new("/").unwrap(),
        vec![2, 2],
        DataType::UInt8,
        FillValue::new(vec![0]),
        vec![2, 2],
        ChunkKeyEncoding::new_default('/'),
        crc_chain(),
    )
    .unwrap();
    let r = array.retrieve_chunk(&vec![0, 0]);
    assert!(matches!(
        r,
        Err(zarrs::array::ArrayError::CodecError(
            zarrs::codec::CodecError::InvalidChecksum
        ))
    ));
    // the partial path does not verify and still answers
    let full = ArraySubset::new(vec![0, 0], vec![2, 2]);
    let out = array.retrieve_chunk_subset(&vec![0, 0], &full).unwrap();
    assert_eq!(out, vec![9, 8, 7, 6]);
}

#[test]
fn partial_decoder_object() {
    // the partial decoder answers several regions in one call
    let array = four_chunk_array(four_chunk_store());
    let decoder = array.partial_decoder(&vec![0, 1]).unwrap();
    let regions = vec![
        ArraySubset::new(vec![0, 0], vec![1, 2]),
        ArraySubset::new(vec![1, 1], vec![1, 1]),
    ];
    let out = decoder
        .partial_decode(&regions, &CodecOptions::new(1))
        .unwrap();
    assert_eq!(out, vec![vec![4, 5], vec![7]]);
}

#[test]
fn into_array_view_writes_window() {
    // a chunk lands in its window of a larger buffer; other bytes keep
    let array = four_chunk_array(four_chunk_store());
    let view = zarrs::array::ArrayView::new(
        vec![4, 4],
        ArraySubset::new(vec![2, 0], vec![2, 2]),
    )
    .unwrap();
    let mut out = vec![0xEEu8; 16];
    array
        .retrieve_chunk_into_array_view_opt(&vec![1, 0], &view, &mut out, &CodecOptions::new(1))
        .unwrap();
    assert_eq!(
        out,
        vec![
            0xEE, 0xEE, 0xEE, 0xEE, 0xEE, 0xEE, 0xEE, 0xEE, 8, 9, 0xEE, 0xEE, 10, 11, 0xEE, 0xEE,
        ]
    );
}

#[test]
fn zero_element_request_is_empty() {
    let array = four_chunk_array(four_chunk_store());
    let subset = ArraySubset::new(vec![2, 2], vec![0, 2]);
    let out = array.retrieve_array_subset(&subset).unwrap();
    assert_eq!(out.len(), 0);
}

#[test]
fn dimensionality_mismatch_rejected() {
    let array = four_chunk_array(four_chunk_store());
    let r = array.retrieve_chunk(&vec![0, 0, 0]);
    assert!(matches!(
        r,
        Err(zarrs::array::ArrayError::InvalidChunkGridIndicesError(_))
    ));
    let subset = ArraySubset::new(vec![0, 0], vec![5, 4]);
    let r2 = array.retrieve_array_subset(&subset);
    assert!(matches!(
        r2,
        Err(zarrs::array::ArrayError::InvalidArraySubset(_, _))
    ));
}

#[test]
fn wrong_size_blob_rejected() {
    // a stored blob of the wrong length fails with the decoded-size error
    let mut store = MemoryStore::new();
    let path = NodePath::new("/").unwrap();
    let enc = ChunkKeyEncoding::new_default('/');
    let key = data_key(&path, &vec![0, 0], &enc);
    store.set(&key, &vec![1, 2, 3]).unwrap();
    let array = Array::new(
        Arc::new(store),
        NodePath::new("/").unwrap(),
        vec![2, 2],
        DataType::UInt8,
        FillValue::new(vec![0]),
        vec![2, 2],
        ChunkKeyEncoding::new_default('/'),
        plain_chain(),
    )
    .unwrap();
    let r = array.retrieve_chunk(&vec![0, 0]);
    assert!(matches!(
        r,
        Err(zarrs::array::ArrayError::CodecError(
            zarrs::codec::CodecError::UnexpectedChunkDecodedSize(3, 4)
        ))
    ));
    let full = ArraySubset::new(vec![0, 0], vec![2, 2]);
    let r2 = array.retrieve_chunk_subset(&vec![0, 0], &full);
    assert!(matches!(
        r2,
        Err(zarrs::array::ArrayError::UnexpectedChunkDecodedSize(3, 4))
    ));
}

#[test]
fn zero_element_chunk_subset_is_empty() {
    // a zero-element subset answers empty without touching the store, even
    // over a blob of the wrong size
    let mut store = MemoryStore::new();
    let path = NodePath::new("/").unwrap();
    let enc = ChunkKeyEncoding::new_default('/');
    let key = data_key(&path, &vec![0, 0], &enc);
    store.set(&key, &vec![1, 2, 3]).unwrap();
    let array = Array::new(
        Arc::new(store),
        NodePath::new("/").unwrap(),
        vec![2, 2],
        DataType::UInt8,
        FillValue::new(vec![0]),
        vec![2, 2],
        ChunkKeyEncoding::new_default('/'),
        plain_chain(),
    )
    .unwrap();
    let empty = ArraySubset::new(vec![0, 0], vec![0, 2]);
    let out = array.retrieve_chunk_subset(&vec![0, 0], &empty).unwrap();
    assert_eq!(out.len(), 0);
}

#[test]
fn retrieve_chunks_validation_and_zero() {
    let array = four_chunk_array(four_chunk_store());
    // an out-of-grid chunk region fails with the subset error against the
    // grid shape
    let bad = ArraySubset::new(vec![0, 0], vec![3, 2]);
    match array.retrieve_chunks(&bad) {
        Err(zarrs::array::ArrayError::InvalidArraySubset(s, b)) => {
            assert_eq!(s.shape(), &vec![3, 2]);
            assert_eq!(b, vec![2, 2]);
        },
        other => panic!("expected the subset error, got {other:?}"),
    }
    // a zero-element chunk region answers empty
    let none = ArraySubset::new(vec![0, 0], vec![0, 2]);
    assert_eq!(array.retrieve_chunks(&none).unwrap().len(), 0);
}

#[test]
fn into_array_view_shape_mismatch() {
    // a view window of the wrong shape is rejected with the subset error
    // and the buffer is untouched
    let array = four_chunk_array(four_chunk_store());
    let view = zarrs::array::ArrayView::new(
        vec![4, 4],
        ArraySubset::new(vec![0, 0], vec![2, 1]),
    )
    .unwrap();
    let mut out = vec![0x55u8; 16];
    let r = array.retrieve_chunk_into_array_view_opt(
        &vec![0, 0],
        &view,
        &mut out,
        &CodecOptions::new(1),
    );
    assert!(matches!(
        r,
        Err(zarrs::array::ArrayError::InvalidArraySubset(_, _))
    ));
    assert!(out.iter().all(|b| *b == 0x55));
    let subset = ArraySubset::new(vec![0, 0], vec![2, 2]);
    let r2 = array.retrieve_array_subset_into_array_view_opt(
        &subset,
        &view,
        &mut out,
        &CodecOptions::new(1),
    );
    assert!(matches!(
        r2,
        Err(zarrs::array::ArrayError::InvalidArraySubset(_, _))
    ));
    assert!(out.iter().all(|b| *b == 0x55));
}

#[test]
fn adapter_chain_over_store() {
    // the partial-decode adapter chain composes over a store-backed input
    // handle: the checksum layer masks the trailer out of a whole-value read
    let mut store = MemoryStore::new();
    let key = zarrs::store_key::StoreKey::new("blob").unwrap();
    let payload: Vec<u8> = vec![5, 6, 7, 8, 9];
    let codec = Crc32cCodec::new();
    let raw = codec.encode(payload.clone(), &CodecOptions::new(1)).unwrap();
    store.set(&key, &raw).unwrap();
    let input = zarrs::store::StoragePartialDecoder::new(&store, key);
    let decoder = Crc32cPartialDecoder::new(input);
    let ranges = vec![
        ByteRange::FromStart(0, None),
        ByteRange::FromStart(1, Some(2)),
        ByteRange::FromEnd(0, Some(4)),
    ];
    let out = decoder
        .partial_decode(&ranges, &CodecOptions::new(1))
        .unwrap()
        .unwrap();
    assert_eq!(out[0], payload);
    assert_eq!(out[1], vec![6, 7]);
    assert_eq!(out[2].len(), 0);
    // an absent key answers nothing
    let missing = zarrs::store_key::StoreKey::new("absent").unwrap();
    let input2 = zarrs::store::StoragePartialDecoder::new(&store, missing);
    let decoder2 = Crc32cPartialDecoder::new(input2);
    assert!(decoder2
        .partial_decode(&vec![ByteRange::FromStart(0, None)], &CodecOptions::new(1))
        .unwrap()
        .is_none());
}

#[test]
fn transpose_order_must_be_permutation() {
    assert!(TransposeOrder::new(vec![]).is_ok());
    assert!(TransposeOrder::new(vec![0]).is_ok());
    assert!(TransposeOrder::new(vec![2, 0, 1]).is_ok());
    assert!(TransposeOrder::new(vec![2, 0]).is_err());
    assert!(TransposeOrder::new(vec![1, 1]).is_err());
}

#[test]
fn whole_chunk_window_verifies_checksum() {
    // a window taking the whole chunk goes through the verifying full
    // decode; a strict sub-window takes the partial path, which does not
    // verify
    let mut store = MemoryStore::new();
    store_encoded(
        &mut store,
        &crc_chain(),
        vec![2, 2],
        DataType::UInt8,
        vec![0],
        vec![0, 0],
        vec![1, 2, 3, 4],
    );
    let path = NodePath::new("/").unwrap();
    let enc = ChunkKeyEncoding::new_default('/');
    let key = data_key(&path, &vec![0, 0], &enc);
    let mut raw = store.get(&key).unwrap().unwrap();
    let last = raw.len() - 1;
    raw[last] ^= 0xFF;
    store.set(&key, &raw).unwrap();
    let array = Array::new(
        Arc::new(store),
        NodePath::new("/").unwrap(),
        vec![2, 2],
        DataType::UInt8,
        FillValue::new(vec![0]),
        vec![2, 2],
        ChunkKeyEncoding::new_default('/'),
        crc_chain(),
    )
    .unwrap();
    let view = zarrs::array::ArrayView::new(
        vec![2, 2],
        ArraySubset::new(vec![0, 0], vec![2, 2]),
    )
    .unwrap();
    let mut out = vec![0u8; 4];
    let whole = ArraySubset::new(vec![0, 0], vec![2, 2]);
    let r = array.retrieve_chunk_subset_into_array_view_opt(
        &vec![0, 0],
        &whole,
        &view,
        &mut out,
        &CodecOptions::new(1),
    );
    assert!(matches!(
        r,
        Err(zarrs::array::ArrayError::CodecError(
            zarrs::codec::CodecError::InvalidChecksum
        ))
    ));
    let row_view = zarrs::array::ArrayView::new(
        vec![2, 2],
        ArraySubset::new(vec![0, 0], vec![1, 2]),
    )
    .unwrap();
    let row = ArraySubset::new(vec![0, 0], vec![1, 2]);
    array
        .retrieve_chunk_subset_into_array_view_opt(
            &vec![0, 0],
            &row,
            &row_view,
            &mut out,
            &CodecOptions::new(1),
        )
        .unwrap();
    assert_eq!(out, vec![1, 2, 0, 0]);
}
