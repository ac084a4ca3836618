//! Component-level tests: codecs, keys, the store, the splitter and the
//! geometry helpers.

use zarrs::byte_range::{extract_byte_range, ByteRange};
use zarrs::codec::{
    BytesCodec, BytesPartialDecoderTraits, ChunkRepresentation, Crc32cCodec, DataType, FillValue,
    TransposeCodec,
    TransposeCodecConfiguration, TransposeCodecConfigurationV1, TransposeOrder,
};
use zarrs::codec_chain::{ArrayToArrayCodec, BytesToBytesCodec, CodecChain};
use zarrs::concurrency::{concurrency_chunks_and_codec, CodecOptions, RecommendedConcurrency};
use zarrs::store::{
    get_partial_values, retrieve_partial_values, MemoryStore, ReadableStorageTraits, StoreKeyRange,
    StoreKeyStartValue, StoreKeysPrefixes, WritableStorageTraits,
};
use zarrs::store_key::{
    data_key, meta_key, ChunkKeyEncoding, NodePath, StoreKey, StorePrefix,
};

#[test]
fn crc32c_known_value() {
    // the trailer is the little-endian CRC-32C of the payload
    let codec = Crc32cCodec::new();
    let payload: Vec<u8> = b"Hello world!".to_vec();
    let encoded = codec
        .encode(payload.clone(), &CodecOptions::new(1))
        .unwrap();
    assert_eq!(&encoded[..12], &payload[..]);
    assert_eq!(&encoded[12..], &0x7B98E751u32.to_le_bytes());
    let decoded = codec.decode(encoded, &CodecOptions::new(1)).unwrap();
    assert_eq!(decoded, payload);
}

#[test]
fn crc32c_rejects_corruption() {
    let codec = Crc32cCodec::new();
    let mut encoded = codec.encode(vec![1, 2, 3], &CodecOptions::new(1)).unwrap();
    encoded[0] ^= 1;
    assert!(codec.decode(encoded.clone(), &CodecOptions::new(1)).is_err());
    // without validation the trailer is stripped regardless
    let lax = CodecOptions::new(1).with_concurrent_target(1);
    let mut no_validate = lax;
    no_validate.validate_checksums = false;
    let decoded = codec.decode(encoded, &no_validate).unwrap();
    assert_eq!(decoded, vec![0, 2, 3]);
}

#[test]
fn transpose_round_trip() {
    // a 2x3 uint16 chunk transposed and back is unchanged
    let order = TransposeOrder::new(vec![1, 0]).unwrap();
    let codec = TransposeCodec::new(order);
    let rep = ChunkRepresentation::new(
        vec![2, 3],
        DataType::UInt16,
        FillValue::new(vec![0, 0]),
    )
    .unwrap();
    let data: Vec<u8> = (0..12).collect();
    let encoded = codec
        .encode(data.clone(), &rep, &CodecOptions::new(1))
        .unwrap();
    // elements move to the transposed layout: element (r,c) -> (c,r)
    assert_eq!(
        encoded,
        vec![0, 1, 6, 7, 2, 3, 8, 9, 4, 5, 10, 11]
    );
    let decoded = codec.decode(encoded, &rep, &CodecOptions::new(1)).unwrap();
    assert_eq!(decoded, data);
}

#[test]
fn transpose_rejects_bad_order() {
    assert!(TransposeOrder::new(vec![0, 0]).is_err());
    assert!(TransposeOrder::new(vec![1, 2]).is_err());
    assert!(TransposeOrder::new(vec![0, 1]).is_ok());
}

#[test]
fn transpose_codec_in_chain() {
    // a chain with transpose, the bytes codec and a checksum round-trips
    let order = TransposeOrder::new(vec![1, 0]).unwrap();
    let chain = CodecChain::new(
        vec![ArrayToArrayCodec::Transpose(TransposeCodec::new(order))],
        BytesCodec::new(),
        vec![BytesToBytesCodec::Crc32c(Crc32cCodec::new())],
    );
    let rep = ChunkRepresentation::new(vec![2, 2], DataType::UInt8, FillValue::new(vec![0]))
        .unwrap();
    let data = vec![11, 22, 33, 44];
    let encoded = chain
        .encode(data.clone(), &rep, &CodecOptions::new(1))
        .unwrap();
    assert_eq!(encoded.len(), 8);
    // the transpose is visible on the wire
    assert_eq!(&encoded[..4], &[11, 33, 22, 44]);
    let decoded = chain.decode(encoded, &rep, &CodecOptions::new(1)).unwrap();
    assert_eq!(decoded, data);
}

#[test]
fn transpose_codec_metadata_helpers() {
    let order = TransposeOrder::new(vec![2, 0, 1]).unwrap();
    let codec = TransposeCodec::new(order);
    assert!(!codec.partial_decoder_should_cache_input());
    assert!(!codec.partial_decoder_decodes_all());
    let rep = ChunkRepresentation::new(
        vec![2, 3, 4],
        DataType::UInt8,
        FillValue::new(vec![0]),
    )
    .unwrap();
    let transposed = codec.compute_encoded_size(&rep).unwrap();
    assert_eq!(transposed.shape(), &vec![4, 2, 3]);
    let rec = codec.recommended_concurrency(&rep);
    assert_eq!((rec.min, rec.max), (1, 1));
}

#[test]
fn transpose_new_with_configuration() {
    let order = TransposeOrder::new(vec![1, 0]).unwrap();
    let configuration = TransposeCodecConfiguration::V1(TransposeCodecConfigurationV1 { order });
    let codec = TransposeCodec::new_with_configuration(&configuration).unwrap();
    assert_eq!(codec.order.as_slice(), &vec![1, 0]);
}

#[test]
fn concurrency_splitter_values() {
    // a codec refusing parallelism forces full outer fan-out
    let options = CodecOptions::new(8);
    let rec = RecommendedConcurrency::new_maximum(1);
    let (outer, inner) = concurrency_chunks_and_codec(8, 4, &options, &rec);
    assert_eq!(outer, 4);
    assert_eq!(inner.concurrent_target, 1);
    // a demanding codec concedes outer slots
    let rec2 = RecommendedConcurrency::new(4, 8);
    let (outer2, inner2) = concurrency_chunks_and_codec(8, 10, &options, &rec2);
    assert_eq!(outer2, 2);
    assert_eq!(inner2.concurrent_target, 4);
    // the budget never leaves less than one slot
    let (outer3, inner3) = concurrency_chunks_and_codec(1, 5, &options, &rec2);
    assert_eq!(outer3, 1);
    assert_eq!(inner3.concurrent_target, 4);
}

#[test]
fn store_key_rules() {
    assert!(StoreKey::new("a/b").is_ok());
    assert!(StoreKey::new("zarr.json").is_ok());
    assert!(StoreKey::new("").is_err());
    assert!(StoreKey::new("a/").is_err());
    assert!(StoreKey::validate("c/0/0"));
    assert!(!StoreKey::validate("c/0/"));
}

#[test]
fn store_key_prefix_relations() {
    let key = StoreKey::new("group/array/c/0").unwrap();
    let prefix = StorePrefix::new("group/array/").unwrap();
    assert!(key.has_prefix(&prefix));
    let other = StorePrefix::new("elsewhere/").unwrap();
    assert!(!key.has_prefix(&other));
    assert_eq!(key.to_prefix().as_str(), "group/array/c/0/");
    let parent = key.parent().unwrap();
    assert_eq!(parent.as_str(), "group/array/c/");
    assert!(StoreKey::new("top").unwrap().parent().is_none());
    assert!(StorePrefix::new("no-slash").is_err());
    assert!(StorePrefix::new("").is_ok());
}

#[test]
fn node_path_rules() {
    assert!(NodePath::new("/").is_ok());
    assert!(NodePath::new("/a/b").is_ok());
    assert!(NodePath::new("").is_err());
    assert!(NodePath::new("a/b").is_err());
    assert!(NodePath::new("/a/").is_err());
    assert!(NodePath::new("/a//b").is_err());
}

#[test]
fn key_encodings() {
    let path = NodePath::new("/group/array").unwrap();
    assert_eq!(meta_key(&path).as_str(), "group/array/zarr.json");
    assert_eq!(meta_key(&NodePath::new("/").unwrap()).as_str(), "zarr.json");
    let enc = ChunkKeyEncoding::new_default('/');
    assert_eq!(
        data_key(&path, &vec![10, 0, 7], &enc).as_str(),
        "group/array/c/10/0/7"
    );
    let dot = ChunkKeyEncoding::new_default('.');
    assert_eq!(data_key(&path, &vec![1, 2], &dot).as_str(), "group/array/c.1.2");
    assert_eq!(
        data_key(&NodePath::new("/").unwrap(), &vec![3], &enc).as_str(),
        "c/3"
    );
}

#[test]
fn memory_store_operations() {
    let mut store = MemoryStore::new();
    let key = StoreKey::new("a/b").unwrap();
    assert_eq!(store.get(&key).unwrap(), None);
    store.set(&key, &vec![1, 2, 3]).unwrap();
    assert_eq!(store.get(&key).unwrap(), Some(vec![1, 2, 3]));
    assert_eq!(store.size_key(&key).unwrap(), Some(3));
    store.set(&key, &vec![9]).unwrap();
    assert_eq!(store.get(&key).unwrap(), Some(vec![9]));
    assert!(store.erase(&key).unwrap());
    assert!(!store.erase(&key).unwrap());
    assert_eq!(store.get(&key).unwrap(), None);
}

#[test]
fn partial_value_reads() {
    let mut store = MemoryStore::new();
    let path = NodePath::new("/data").unwrap();
    let enc = ChunkKeyEncoding::new_default('/');
    zarrs::store::store_chunk(&mut store, &path, &vec![0], &enc, &vec![10, 20, 30, 40, 50])
        .unwrap();
    let ranges = vec![
        ByteRange::FromStart(1, Some(2)),
        ByteRange::FromEnd(0, Some(1)),
        ByteRange::FromStart(0, None),
    ];
    let out = retrieve_partial_values(&store, &path, &vec![0], &enc, &ranges).unwrap();
    assert_eq!(out[0], Some(vec![20, 30]));
    assert_eq!(out[1], Some(vec![50]));
    assert_eq!(out[2], Some(vec![10, 20, 30, 40, 50]));
    let absent = retrieve_partial_values(&store, &path, &vec![9], &enc, &ranges).unwrap();
    assert_eq!(absent, vec![None, None, None]);
    let key = data_key(&path, &vec![0], &enc);
    let keyed = vec![
        StoreKeyRange::new(key.clone(), ByteRange::FromStart(0, Some(1))),
        StoreKeyRange::new(StoreKey::new("missing").unwrap(), ByteRange::FromStart(0, None)),
    ];
    let out2 = get_partial_values(&store, &keyed).unwrap();
    assert_eq!(out2, vec![Some(vec![10]), None]);
}

#[test]
fn byte_range_extraction() {
    let data = vec![0u8, 1, 2, 3, 4, 5];
    assert_eq!(
        extract_byte_range(&data, &ByteRange::FromStart(2, Some(3))).unwrap(),
        vec![2, 3, 4]
    );
    assert_eq!(
        extract_byte_range(&data, &ByteRange::FromEnd(1, Some(2))).unwrap(),
        vec![3, 4]
    );
    assert_eq!(
        extract_byte_range(&data, &ByteRange::FromEnd(2, None)).unwrap(),
        vec![0, 1, 2, 3]
    );
    assert!(extract_byte_range(&data, &ByteRange::FromStart(5, Some(2))).is_err());
}

#[test]
fn store_key_start_value_end() {
    let key = StoreKey::new("k").unwrap();
    let bytes = [7u8, 8, 9];
    let skv = StoreKeyStartValue::new(key, 10, &bytes);
    assert_eq!(skv.end(), 13);
}

#[test]
fn store_keys_prefixes_accessors() {
    let listing = StoreKeysPrefixes {
        keys_list: vec![StoreKey::new("a/k").unwrap()],
        prefixes_list: vec![StorePrefix::new("a/b/").unwrap()],
    };
    assert_eq!(listing.keys().len(), 1);
    assert_eq!(listing.prefixes().len(), 1);
}

#[test]
fn node_exists_checks_metadata() {
    let mut store = MemoryStore::new();
    let path = NodePath::new("/node").unwrap();
    assert!(!zarrs::store::node_exists(&store, &path).unwrap());
    store.set(&meta_key(&path), &vec![123]).unwrap();
    assert!(zarrs::store::node_exists(&store, &path).unwrap());
}

#[test]
fn chunk_representation_validation() {
    assert!(ChunkRepresentation::new(
        vec![2, 2],
        DataType::UInt32,
        FillValue::new(vec![0, 0, 0, 0])
    )
    .is_ok());
    // a fill value of the wrong width is rejected
    assert!(ChunkRepresentation::new(
        vec![2, 2],
        DataType::UInt32,
        FillValue::new(vec![0])
    )
    .is_err());
    // a zero extent is rejected
    assert!(ChunkRepresentation::new(
        vec![2, 0],
        DataType::UInt8,
        FillValue::new(vec![0])
    )
    .is_err());
    let rep = ChunkRepresentation::new(
        vec![3, 5],
        DataType::Float64,
        FillValue::new(vec![0, 0, 0, 0, 0, 0, 0, 0]),
    )
    .unwrap();
    assert_eq!(rep.num_elements(), 15);
    assert_eq!(rep.size_bytes(), 120);
    assert_eq!(rep.element_size(), 8);
}

#[test]
fn bytes_codec_size_checked() {
    let codec = BytesCodec::new();
    let rep = ChunkRepresentation::new(vec![2], DataType::UInt16, FillValue::new(vec![0, 0]))
        .unwrap();
    assert_eq!(
        codec
            .encode(vec![1, 2, 3, 4], &rep, &CodecOptions::new(1))
            .unwrap(),
        vec![1, 2, 3, 4]
    );
    assert!(codec.encode(vec![1, 2, 3], &rep, &CodecOptions::new(1)).is_err());
    assert!(codec.decode(vec![1], &rep, &CodecOptions::new(1)).is_err());
}

#[test]
fn pcodec_name_recognised() {
    assert!(zarrs::codec::is_name_pcodec("numcodecs.pcodec"));
    assert!(zarrs::codec::is_name_pcodec("pcodec"));
    assert!(!zarrs::codec::is_name_pcodec("bytes"));
    assert!(!zarrs::codec::is_name_pcodec(""));
}

#[test]
fn vec_input_answers_valid_ranges() {
    // the in-memory input handle answers exactly the requests whose ranges
    // fit; one bad range fails the whole request
    let data: Vec<u8> = vec![10, 11, 12];
    let ok = data
        .partial_decode(
            &vec![ByteRange::FromStart(0, Some(3)), ByteRange::FromEnd(1, Some(1))],
            &CodecOptions::new(1),
        )
        .unwrap()
        .unwrap();
    assert_eq!(ok, vec![vec![10, 11, 12], vec![11]]);
    let bad = data.partial_decode(
        &vec![ByteRange::FromStart(2, Some(2))],
        &CodecOptions::new(1),
    );
    assert!(matches!(
        bad,
        Err(zarrs::codec::CodecError::InvalidByteRangeError(_))
    ));
}
