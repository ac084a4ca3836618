//! The abstract key-value blob store: its contracts over a map view, an
//! in-memory store, and the store operations on chunks and nodes.
//!
//! The verified model carries the value operations of the store interface:
//! whole and ranged reads, size, write and erase. The listing operations
//! live with the asynchronous backend outside the verified core, where the
//! hierarchy helpers that need them also stand.

use crate::byte_range::{extract_range_spec, ByteRange, InvalidByteRangeError};
use crate::store_key::{
    data_key, data_key_chars, ChunkKeyEncoding, NodePath, NodePathError, StoreKey, StoreKeyError,
    StoreKeys, StorePrefix, StorePrefixError, StorePrefixes,
};
use vstd::prelude::*;

verus! {

/// A value fetched from a store, or nothing when the key is absent.
pub type MaybeBytes = Option<Vec<u8>>;

/// A storage error.
#[derive(Debug)]
pub enum StorageError {
    /// A write operation was attempted on a read-only store.
    ReadOnly,
    /// An invalid store prefix.
    StorePrefixError(StorePrefixError),
    /// An invalid store key.
    InvalidStoreKey(StoreKeyError),
    /// An invalid node path.
    NodePathError(NodePathError),
    /// An invalid byte range.
    InvalidByteRangeError(InvalidByteRangeError),
    /// The requested method is not supported.
    Unsupported(String),
    /// Unknown key size where the key size must be known.
    UnknownKeySize(StoreKey),
    /// The metadata document under a key cannot be understood.
    InvalidMetadata(StoreKey, String),
    /// Any other error.
    Other(String),
}

impl From<String> for StorageError {
    fn from(err: String) -> (r: Self) {
        StorageError::Other(err)
    }
}

impl vstd::std_specs::convert::FromSpecImpl<String> for StorageError {
    open spec fn obeys_from_spec() -> bool {
        true
    }

    open spec fn from_spec(err: String) -> Self {
        StorageError::Other(err)
    }
}

/// A store key together with a byte range to read from it.
#[derive(Debug)]
pub struct StoreKeyRange {
    pub key: StoreKey,
    pub byte_range: ByteRange,
}

impl StoreKeyRange {
    /// Create a keyed byte range.
    pub fn new(key: StoreKey, byte_range: ByteRange) -> (r: Self)
        ensures
            r.key@ == key@,
            r.byte_range == byte_range,
    {
        Self { key, byte_range }
    }
}

/// A store key, a starting byte offset, and the bytes to write there.
#[derive(Debug)]
pub struct StoreKeyStartValue<'a> {
    pub key: StoreKey,
    pub start: u64,
    pub value: &'a [u8],
}

impl<'a> StoreKeyStartValue<'a> {
    /// Create a keyed offset write.
    pub fn new(key: StoreKey, start: u64, value: &'a [u8]) -> (r: StoreKeyStartValue<'a>)
        ensures
            r.key@ == key@,
            r.start == start,
            r.value@ == value@,
    {
        StoreKeyStartValue { key, start, value }
    }

    /// The offset one past the write.
    pub fn end(&self) -> (r: u64)
        requires
            self.start + self.value@.len() <= u64::MAX,
        ensures
            r == self.start + self.value@.len(),
    {
        self.start + self.value.len() as u64
    }
}

/// Store keys and store prefixes, as a directory listing returns them.
#[derive(Debug)]
pub struct StoreKeysPrefixes {
    pub keys_list: StoreKeys,
    pub prefixes_list: StorePrefixes,
}

impl StoreKeysPrefixes {
    /// The keys of the listing.
    pub fn keys(&self) -> (r: &StoreKeys)
        ensures
            r == &self.keys_list,
    {
        &self.keys_list
    }

    /// The prefixes of the listing.
    pub fn prefixes(&self) -> (r: &StorePrefixes)
        ensures
            r == &self.prefixes_list,
    {
        &self.prefixes_list
    }
}

/// The store's contents as a map from key characters to value bytes, with
/// the invariant that makes the store's operations meaningful.
pub trait StorageView: Sized {
    spec fn inv(&self) -> bool;

    spec fn view_map(&self) -> Map<Seq<char>, Seq<u8>>;
}

/// Read operations of a store.
pub trait ReadableStorageTraits: StorageView {
    /// The whole value under a key, or nothing when the key is absent.
    fn get(&self, key: &StoreKey) -> (r: Result<MaybeBytes, StorageError>)
        requires
            self.inv(),
        ensures
            r matches Ok(Some(v)) ==> self.view_map().contains_key(key@) && v@ == self.view_map()[key@],
            r matches Ok(None) ==> !self.view_map().contains_key(key@),
    ;

    /// Byte ranges of the value under one key, or nothing when the key is
    /// absent. Every range must fit in the value.
    fn get_partial_values_key(&self, key: &StoreKey, byte_ranges: &Vec<ByteRange>) -> (r: Result<
        Option<Vec<Vec<u8>>>,
        StorageError,
    >)
        requires
            self.inv(),
        ensures
            r matches Ok(Some(v)) ==> {
                &&& self.view_map().contains_key(key@)
                &&& v@.len() == byte_ranges@.len()
                &&& forall|i: int| 0 <= i < v@.len() ==> (#[trigger] byte_ranges@[i]).spec_valid(
                    self.view_map()[key@].len() as int,
                )
                &&& forall|i: int| 0 <= i < v@.len() ==> (#[trigger] v@[i])@ == extract_range_spec(
                    self.view_map()[key@],
                    byte_ranges@[i],
                )
            },
            r matches Ok(None) ==> !self.view_map().contains_key(key@),
    ;

    /// The byte size of the value under a key, or nothing when absent.
    fn size_key(&self, key: &StoreKey) -> (r: Result<Option<u64>, StorageError>)
        requires
            self.inv(),
        ensures
            r matches Ok(Some(n)) ==> self.view_map().contains_key(key@) && n
                == self.view_map()[key@].len(),
            r matches Ok(None) ==> !self.view_map().contains_key(key@),
    ;
}

/// Write operations of a store.
pub trait WritableStorageTraits: StorageView {
    /// Store a value under a key, replacing any value already there.
    fn set(&mut self, key: &StoreKey, value: &Vec<u8>) -> (r: Result<(), StorageError>)
        requires
            old(self).inv(),
            key.wf(),
        ensures
            final(self).inv(),
            r is Ok ==> final(self).view_map() == old(self).view_map().insert(key@, value@),
            r is Err ==> final(self).view_map() == old(self).view_map(),
    ;

    /// Erase a key. Returns whether the key existed.
    fn erase(&mut self, key: &StoreKey) -> (r: Result<bool, StorageError>)
        requires
            old(self).inv(),
        ensures
            final(self).inv(),
            r matches Ok(b) ==> final(self).view_map() == old(self).view_map().remove(key@) && (b
                <==> old(self).view_map().contains_key(key@)),
            r is Err ==> final(self).view_map() == old(self).view_map(),
    ;
}

/// The contents of a sequence of keyed values, later entries overriding
/// earlier ones.
pub open spec fn entries_map(s: Seq<(StoreKey, Vec<u8>)>) -> Map<Seq<char>, Seq<u8>>
    decreases s.len(),
{
    if s.len() == 0 {
        Map::empty()
    } else {
        entries_map(s.drop_last()).insert(s.last().0@, s.last().1@)
    }
}

/// No two entries share a key.
pub open spec fn entries_unique(s: Seq<(StoreKey, Vec<u8>)>) -> bool {
    forall|i: int, j: int| 0 <= i < j < s.len() ==> (#[trigger] s[i]).0@ != (#[trigger] s[j]).0@
}

/// A key is in the contents exactly when some entry holds it.
pub proof fn lemma_entries_map_domain(s: Seq<(StoreKey, Vec<u8>)>, k: Seq<char>)
    ensures
        entries_map(s).contains_key(k) <==> exists|i: int| 0 <= i < s.len() && (#[trigger] s[i]).0@
            == k,
    decreases s.len(),
{
    if s.len() > 0 {
        lemma_entries_map_domain(s.drop_last(), k);
        if entries_map(s).contains_key(k) {
            if s.last().0@ == k {
                assert(s[s.len() - 1].0@ == k);
            } else {
                let i = choose|i: int| 0 <= i < s.drop_last().len() && (#[trigger] s.drop_last()[i]).0@ == k;
                assert(s[i].0@ == k);
            }
        }
        if exists|i: int| 0 <= i < s.len() && (#[trigger] s[i]).0@ == k {
            let i = choose|i: int| 0 <= i < s.len() && (#[trigger] s[i]).0@ == k;
            if i < s.len() - 1 {
                assert(s.drop_last()[i].0@ == k);
            }
        }
    }
}

/// With unique keys, the contents at an entry's key are that entry's value.
pub proof fn lemma_entries_map_index(s: Seq<(StoreKey, Vec<u8>)>, i: int)
    requires
        entries_unique(s),
        0 <= i < s.len(),
    ensures
        entries_map(s).contains_key(s[i].0@),
        entries_map(s)[s[i].0@] == s[i].1@,
    decreases s.len(),
{
    if i == s.len() - 1 {
    } else {
        assert(entries_unique(s.drop_last())) by {
            assert forall|a: int, b: int|
                0 <= a < b < s.drop_last().len() implies (#[trigger] s.drop_last()[a]).0@ != (
            #[trigger] s.drop_last()[b]).0@ by {
                assert(s[a].0@ != s[b].0@);
            }
        }
        lemma_entries_map_index(s.drop_last(), i);
        assert(s[i].0@ != s.last().0@);
        assert(s.drop_last()[i] == s[i]);
    }
}

/// Replacing the entry holding a key updates the contents at that key.
pub proof fn lemma_entries_map_update(
    s: Seq<(StoreKey, Vec<u8>)>,
    i: int,
    e: (StoreKey, Vec<u8>),
)
    requires
        entries_unique(s),
        0 <= i < s.len(),
        e.0@ == s[i].0@,
    ensures
        entries_map(s.update(i, e)) =~= entries_map(s).insert(e.0@, e.1@),
        entries_unique(s.update(i, e)),
    decreases s.len(),
{
    let u = s.update(i, e);
    assert(entries_unique(u)) by {
        assert forall|a: int, b: int| 0 <= a < b < u.len() implies (#[trigger] u[a]).0@ != (
        #[trigger] u[b]).0@ by {
            assert(s[a].0@ != s[b].0@);
        }
    }
    if i == s.len() - 1 {
        assert(u.drop_last() =~= s.drop_last());
        assert(u.last() == e);
    } else {
        assert(entries_unique(s.drop_last())) by {
            assert forall|a: int, b: int|
                0 <= a < b < s.drop_last().len() implies (#[trigger] s.drop_last()[a]).0@ != (
            #[trigger] s.drop_last()[b]).0@ by {
                assert(s[a].0@ != s[b].0@);
            }
        }
        assert(u.drop_last() =~= s.drop_last().update(i, e));
        assert(u.last() == s.last());
        lemma_entries_map_update(s.drop_last(), i, e);
        assert(s[i].0@ != s.last().0@);
    }
}

/// Removing the entry holding a key removes that key from the contents.
pub proof fn lemma_entries_map_remove(s: Seq<(StoreKey, Vec<u8>)>, i: int)
    requires
        entries_unique(s),
        0 <= i < s.len(),
    ensures
        entries_map(s.remove(i)) =~= entries_map(s).remove(s[i].0@),
        entries_unique(s.remove(i)),
    decreases s.len(),
{
    let u = s.remove(i);
    assert(entries_unique(u)) by {
        assert forall|a: int, b: int| 0 <= a < b < u.len() implies (#[trigger] u[a]).0@ != (
        #[trigger] u[b]).0@ by {
            if b < i {
                assert(s[a].0@ != s[b].0@);
            } else if a < i {
                assert(s[a].0@ != s[b + 1].0@);
            } else {
                assert(s[a + 1].0@ != s[b + 1].0@);
            }
        }
    }
    assert(entries_unique(s.drop_last())) by {
        assert forall|a: int, b: int|
            0 <= a < b < s.drop_last().len() implies (#[trigger] s.drop_last()[a]).0@ != (
        #[trigger] s.drop_last()[b]).0@ by {
            assert(s[a].0@ != s[b].0@);
        }
    }
    if i == s.len() - 1 {
        assert(u =~= s.drop_last());
        lemma_entries_map_domain(s.drop_last(), s[i].0@);
        assert forall|a: int| 0 <= a < s.drop_last().len() implies (#[trigger] s.drop_last()[a]).0@
            != s[i].0@ by {
            assert(s[a].0@ != s[i].0@);
        }
    } else {
        assert(u.drop_last() =~= s.drop_last().remove(i));
        assert(u.last() == s.last());
        lemma_entries_map_remove(s.drop_last(), i);
        assert(s[i].0@ != s.last().0@);
    }
}

/// An in-memory store: keyed byte values held in a vector with unique keys.
#[derive(Debug)]
pub struct MemoryStore {
    pub entries: Vec<(StoreKey, Vec<u8>)>,
}

impl MemoryStore {
    /// Create an empty in-memory store.
    pub fn new() -> (r: Self)
        ensures
            r.inv(),
            r.view_map() == Map::<Seq<char>, Seq<u8>>::empty(),
    {
        MemoryStore { entries: Vec::new() }
    }

    /// The position of the entry holding a key, when one does.
    fn find(&self, key: &StoreKey) -> (r: Option<usize>)
        ensures
            r matches Some(i) ==> i < self.entries@.len() && self.entries@[i as int].0@ == key@,
            r is None ==> forall|j: int| 0 <= j < self.entries@.len() ==> (
            #[trigger] self.entries@[j]).0@ != key@,
    {
        let n = self.entries.len();
        for i in 0..n
            invariant
                n == self.entries@.len(),
                forall|j: int| 0 <= j < i ==> (#[trigger] self.entries@[j]).0@ != key@,
        {
            let e = &self.entries[i];
            if e.0.0 == key.0 {
                return Some(i);
            }
        }
        None
    }
}

impl Default for MemoryStore {
    /// An empty in-memory store.
    fn default() -> (r: Self)
        ensures
            r.inv(),
            r.view_map() == Map::<Seq<char>, Seq<u8>>::empty(),
    {
        MemoryStore::new()
    }
}

impl StorageView for MemoryStore {
    open spec fn inv(&self) -> bool {
        entries_unique(self.entries@)
    }

    open spec fn view_map(&self) -> Map<Seq<char>, Seq<u8>> {
        entries_map(self.entries@)
    }
}

impl ReadableStorageTraits for MemoryStore {
    fn get(&self, key: &StoreKey) -> (r: Result<MaybeBytes, StorageError>)
        ensures
            r is Ok,
    {
        match self.find(key) {
            Some(i) => {
                proof {
                    lemma_entries_map_index(self.entries@, i as int);
                }
                let e = &self.entries[i];
                Ok(Some(crate::codec::copy_u8_vec(&e.1)))
            },
            None => {
                proof {
                    lemma_entries_map_domain(self.entries@, key@);
                }
                Ok(None)
            },
        }
    }

    fn get_partial_values_key(&self, key: &StoreKey, byte_ranges: &Vec<ByteRange>) -> (r: Result<
        Option<Vec<Vec<u8>>>,
        StorageError,
    >)
        ensures
            r is Err <==> (self.view_map().contains_key(key@) && exists|i: int|
                0 <= i < byte_ranges@.len() && !(#[trigger] byte_ranges@[i]).spec_valid(
                    self.view_map()[key@].len() as int,
                )),
    {
        match self.find(key) {
            Some(i) => {
                proof {
                    lemma_entries_map_index(self.entries@, i as int);
                }
                let value = &self.entries[i].1;
                let n = byte_ranges.len();
                let mut out: Vec<Vec<u8>> = Vec::new();
                for t in 0..n
                    invariant
                        n == byte_ranges@.len(),
                        out@.len() == t,
                        self.view_map().contains_key(key@),
                        value@ == self.view_map()[key@],
                        forall|j: int| 0 <= j < t ==> (#[trigger] byte_ranges@[j]).spec_valid(
                            value@.len() as int,
                        ),
                        forall|j: int| 0 <= j < t ==> (#[trigger] out@[j])@ == extract_range_spec(
                            value@,
                            byte_ranges@[j],
                        ),
                {
                    match crate::byte_range::extract_byte_range(value, &byte_ranges[t]) {
                        Ok(v) => {
                            out.push(v);
                        },
                        Err(e) => {
                            proof {
                                assert(!(#[trigger] byte_ranges@[t as int]).spec_valid(
                                    self.view_map()[key@].len() as int,
                                ));
                            }
                            return Err(StorageError::InvalidByteRangeError(e));
                        },
                    }
                }
                Ok(Some(out))
            },
            None => {
                proof {
                    lemma_entries_map_domain(self.entries@, key@);
                }
                Ok(None)
            },
        }
    }

    fn size_key(&self, key: &StoreKey) -> (r: Result<Option<u64>, StorageError>)
        ensures
            r is Ok,
    {
        match self.find(key) {
            Some(i) => {
                proof {
                    lemma_entries_map_index(self.entries@, i as int);
                }
                Ok(Some(self.entries[i].1.len() as u64))
            },
            None => {
                proof {
                    lemma_entries_map_domain(self.entries@, key@);
                }
                Ok(None)
            },
        }
    }
}

impl WritableStorageTraits for MemoryStore {
    fn set(&mut self, key: &StoreKey, value: &Vec<u8>) -> (r: Result<(), StorageError>)
        ensures
            r is Ok,
    {
        let v = crate::codec::copy_u8_vec(value);
        let k = key.clone();
        match self.find(key) {
            Some(i) => {
                proof {
                    lemma_entries_map_update(self.entries@, i as int, (k, v));
                }
                self.entries.set(i, (k, v));
                Ok(())
            },
            None => {
                let ghost s0 = self.entries@;
                self.entries.push((k, v));
                proof {
                    assert(self.entries@.drop_last() =~= s0);
                    assert(entries_unique(self.entries@)) by {
                        assert forall|a: int, b: int|
                            0 <= a < b < self.entries@.len() implies (
                        #[trigger] self.entries@[a]).0@ != (#[trigger] self.entries@[b]).0@ by {
                            if b == self.entries@.len() - 1 {
                                assert(s0[a].0@ != key@);
                            } else {
                                assert(s0[a].0@ != s0[b].0@);
                            }
                        }
                    }
                }
                Ok(())
            },
        }
    }

    fn erase(&mut self, key: &StoreKey) -> (r: Result<bool, StorageError>)
        ensures
            r is Ok,
    {
        match self.find(key) {
            Some(i) => {
                proof {
                    lemma_entries_map_remove(self.entries@, i as int);
                    lemma_entries_map_domain(self.entries@, key@);
                }
                self.entries.remove(i);
                Ok(true)
            },
            None => {
                proof {
                    lemma_entries_map_domain(self.entries@, key@);
                    assert(entries_map(self.entries@).remove(key@) =~= entries_map(self.entries@));
                }
                Ok(false)
            },
        }
    }
}

/// Store one chunk's serialised bytes under its data key.
pub fn store_chunk<TStorage: WritableStorageTraits>(
    storage: &mut TStorage,
    array_path: &NodePath,
    chunk_grid_indices: &Vec<u64>,
    chunk_key_encoding: &ChunkKeyEncoding,
    chunk_serialised: &Vec<u8>,
) -> (r: Result<(), StorageError>)
    requires
        old(storage).inv(),
        array_path.wf(),
        chunk_key_encoding.wf(),
    ensures
        final(storage).inv(),
        r is Ok ==> final(storage).view_map() == old(storage).view_map().insert(
            data_key_chars(array_path@, chunk_grid_indices@, chunk_key_encoding.separator),
            chunk_serialised@,
        ),
        r is Err ==> final(storage).view_map() == old(storage).view_map(),
{
    let key = data_key(array_path, chunk_grid_indices, chunk_key_encoding);
    proof {
        crate::store_key::lemma_data_key_valid(
            array_path@,
            chunk_grid_indices@,
            chunk_key_encoding.separator,
        );
    }
    storage.set(&key, chunk_serialised)
}

/// Retrieve one chunk's serialised bytes, or nothing when the chunk has no
/// key in the store.
pub fn retrieve_chunk<TStorage: ReadableStorageTraits>(
    storage: &TStorage,
    array_path: &NodePath,
    chunk_grid_indices: &Vec<u64>,
    chunk_key_encoding: &ChunkKeyEncoding,
) -> (r: Result<MaybeBytes, StorageError>)
    requires
        storage.inv(),
        array_path.wf(),
        chunk_key_encoding.wf(),
    ensures
        r matches Ok(Some(v)) ==> storage.view_map().contains_key(
            data_key_chars(array_path@, chunk_grid_indices@, chunk_key_encoding.separator),
        ) && v@ == storage.view_map()[data_key_chars(
            array_path@,
            chunk_grid_indices@,
            chunk_key_encoding.separator,
        )],
        r matches Ok(None) ==> !storage.view_map().contains_key(
            data_key_chars(array_path@, chunk_grid_indices@, chunk_key_encoding.separator),
        ),
{
    let key = data_key(array_path, chunk_grid_indices, chunk_key_encoding);
    storage.get(&key)
}

/// Erase one chunk. Returns whether the chunk had a key in the store.
pub fn erase_chunk<TStorage: WritableStorageTraits>(
    storage: &mut TStorage,
    array_path: &NodePath,
    chunk_grid_indices: &Vec<u64>,
    chunk_key_encoding: &ChunkKeyEncoding,
) -> (r: Result<bool, StorageError>)
    requires
        old(storage).inv(),
        array_path.wf(),
        chunk_key_encoding.wf(),
    ensures
        final(storage).inv(),
        r matches Ok(b) ==> final(storage).view_map() == old(storage).view_map().remove(
            data_key_chars(array_path@, chunk_grid_indices@, chunk_key_encoding.separator),
        ) && (b <==> old(storage).view_map().contains_key(
            data_key_chars(array_path@, chunk_grid_indices@, chunk_key_encoding.separator),
        )),
        r is Err ==> final(storage).view_map() == old(storage).view_map(),
{
    let key = data_key(array_path, chunk_grid_indices, chunk_key_encoding);
    storage.erase(&key)
}

/// Retrieve byte ranges from one chunk. Each requested range yields its
/// bytes, or nothing when the chunk has no key in the store.
pub fn retrieve_partial_values<TStorage: ReadableStorageTraits>(
    storage: &TStorage,
    array_path: &NodePath,
    chunk_grid_indices: &Vec<u64>,
    chunk_key_encoding: &ChunkKeyEncoding,
    bytes_ranges: &Vec<ByteRange>,
) -> (r: Result<Vec<MaybeBytes>, StorageError>)
    requires
        storage.inv(),
        array_path.wf(),
        chunk_key_encoding.wf(),
    ensures
        r matches Ok(v) ==> {
            let k = data_key_chars(array_path@, chunk_grid_indices@, chunk_key_encoding.separator);
            &&& v@.len() == bytes_ranges@.len()
            &&& (storage.view_map().contains_key(k) ==> forall|i: int|
                0 <= i < v@.len() ==> ((#[trigger] v@[i]) matches Some(b) && b@
                    == extract_range_spec(storage.view_map()[k], bytes_ranges@[i])))
            &&& (!storage.view_map().contains_key(k) ==> forall|i: int|
                0 <= i < v@.len() ==> (#[trigger] v@[i]) is None)
        },
{
    let key = data_key(array_path, chunk_grid_indices, chunk_key_encoding);
    match storage.get_partial_values_key(&key, bytes_ranges) {
        Ok(Some(parts)) => {
            let n = parts.len();
            let mut out: Vec<MaybeBytes> = Vec::new();
            for t in 0..n
                invariant
                    n == parts@.len(),
                    out@.len() == t,
                    forall|j: int| 0 <= j < t ==> ((#[trigger] out@[j]) matches Some(b) && b@
                        == parts@[j]@),
            {
                out.push(Some(crate::codec::copy_u8_vec(&parts[t])));
            }
            Ok(out)
        },
        Ok(None) => {
            let n = bytes_ranges.len();
            let mut out: Vec<MaybeBytes> = Vec::new();
            for t in 0..n
                invariant
                    out@.len() == t,
                    forall|j: int| 0 <= j < t ==> (#[trigger] out@[j]) is None,
            {
                out.push(None);
            }
            Ok(out)
        },
        Err(e) => Err(e),
    }
}

/// Retrieve the byte range of each keyed range, or nothing for each range
/// whose key is absent.
pub fn get_partial_values<TStorage: ReadableStorageTraits>(
    storage: &TStorage,
    key_ranges: &Vec<StoreKeyRange>,
) -> (r: Result<Vec<MaybeBytes>, StorageError>)
    requires
        storage.inv(),
    ensures
        r matches Ok(v) ==> {
            &&& v@.len() == key_ranges@.len()
            &&& forall|i: int| 0 <= i < v@.len() ==> match #[trigger] v@[i] {
                Some(b) => storage.view_map().contains_key(key_ranges@[i].key@) && b@
                    == extract_range_spec(
                    storage.view_map()[key_ranges@[i].key@],
                    key_ranges@[i].byte_range,
                ),
                None => !storage.view_map().contains_key(key_ranges@[i].key@),
            }
        },
{
    let n = key_ranges.len();
    let mut out: Vec<MaybeBytes> = Vec::new();
    for t in 0..n
        invariant
            storage.inv(),
            n == key_ranges@.len(),
            out@.len() == t,
            forall|i: int| 0 <= i < t ==> match #[trigger] out@[i] {
                Some(b) => storage.view_map().contains_key(key_ranges@[i].key@) && b@
                    == extract_range_spec(
                    storage.view_map()[key_ranges@[i].key@],
                    key_ranges@[i].byte_range,
                ),
                None => !storage.view_map().contains_key(key_ranges@[i].key@),
            },
    {
        let kr = &key_ranges[t];
        let mut ranges: Vec<ByteRange> = Vec::new();
        ranges.push(kr.byte_range);
        match storage.get_partial_values_key(&kr.key, &ranges) {
            Ok(Some(mut v)) => {
                let first = v.pop().unwrap();
                proof {
                    assert(ranges@[0] == kr.byte_range);
                }
                out.push(Some(first));
            },
            Ok(None) => {
                out.push(None);
            },
            Err(e) => {
                return Err(e);
            },
        }
    }
    Ok(out)
}

/// Whether a node exists: its metadata document is in the store.
pub fn node_exists<TStorage: ReadableStorageTraits>(
    storage: &TStorage,
    path: &NodePath,
) -> (r: Result<bool, StorageError>)
    requires
        storage.inv(),
        path.wf(),
    ensures
        r matches Ok(b) ==> (b <==> storage.view_map().contains_key(
            crate::store_key::meta_key_chars(path@),
        )),
{
    let key = crate::store_key::meta_key(path);
    match storage.get(&key) {
        Ok(Some(_)) => Ok(true),
        Ok(None) => Ok(false),
        Err(e) => Err(e),
    }
}


/// A byte-range reader over one stored value: the partial-decode input
/// handle at the bottom of an adapter chain, consumed by the innermost
/// bytes-to-bytes partial decoder.
pub struct StoragePartialDecoder<'a, TStorage> {
    pub storage: &'a TStorage,
    pub key: StoreKey,
}

impl<'a, TStorage: ReadableStorageTraits> StoragePartialDecoder<'a, TStorage> {
    /// Create a byte-range reader over the value under `key`.
    pub fn new(storage: &'a TStorage, key: StoreKey) -> (r: Self)
        ensures
            r.storage == storage,
            r.key@ == key@,
    {
        Self { storage, key }
    }
}

impl<'a, TStorage: ReadableStorageTraits> crate::codec::BytesPartialDecoderTraits for StoragePartialDecoder<
    'a,
    TStorage,
> {
    open spec fn pd_inv(&self) -> bool {
        self.storage.inv()
    }

    /// The stored value itself: the blob every outer adapter unwraps.
    open spec fn blob(&self) -> Option<Seq<u8>> {
        if self.storage.view_map().contains_key(self.key@) {
            Some(self.storage.view_map()[self.key@])
        } else {
            None
        }
    }

    open spec fn spec_answer(&self, range: crate::byte_range::ByteRange) -> Seq<u8> {
        extract_range_spec(self.blob()->0, range)
    }

    /// A store may fail any read, so this handle promises no answer.
    open spec fn answers(&self, ranges: Seq<ByteRange>) -> bool {
        false
    }

    proof fn lemma_answer_in_blob(&self, range: crate::byte_range::ByteRange) {
    }

    fn partial_decode(
        &self,
        decoded_regions: &Vec<ByteRange>,
        _options: &crate::concurrency::CodecOptions,
    ) -> (r: Result<Option<Vec<Vec<u8>>>, crate::codec::CodecError>)
        ensures
            r matches Err(e) ==> e matches crate::codec::CodecError::StorageError(_),
    {
        match self.storage.get_partial_values_key(&self.key, decoded_regions) {
            Ok(Some(v)) => Ok(Some(v)),
            Ok(None) => Ok(None),
            Err(e) => Err(crate::codec::CodecError::StorageError(e)),
        }
    }
}

} // verus!
