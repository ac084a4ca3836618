//! Store keys, store prefixes and node paths, and the chunk key encoding
//! mapping node paths and chunk coordinates to store keys.

use vstd::prelude::*;
use vstd::string::StrSliceExecFns;
use vstd::string::StringExecFns;

verus! {

/// A Zarr abstract store key: a non-empty string whose final character is
/// not `/`.
#[derive(Debug)]
pub struct StoreKey(pub String);

/// An invalid store key.
#[derive(Debug)]
pub struct StoreKeyError(pub String);

/// A list of store keys.
pub type StoreKeys = Vec<StoreKey>;

/// A store prefix: empty, or a string whose final character is `/`.
#[derive(Debug)]
pub struct StorePrefix(pub String);

/// An invalid store prefix.
#[derive(Debug)]
pub struct StorePrefixError(pub String);

/// A list of store prefixes.
pub type StorePrefixes = Vec<StorePrefix>;

/// A node path: `/`, or `/`-led segments with no empty segment and no
/// trailing `/`.
#[derive(Debug)]
pub struct NodePath(pub String);

/// An invalid node path.
#[derive(Debug)]
pub struct NodePathError(pub String);

/// The characters of `s` form a valid store key.
pub open spec fn valid_key_chars(s: Seq<char>) -> bool {
    s.len() > 0 && s.last() != '/'
}

/// The characters of `s` form a valid store prefix.
pub open spec fn valid_prefix_chars(s: Seq<char>) -> bool {
    s.len() == 0 || s.last() == '/'
}

/// The characters of `s` form a valid node path.
pub open spec fn valid_path_chars(s: Seq<char>) -> bool {
    &&& s.len() >= 1
    &&& s[0] == '/'
    &&& (s.len() == 1 || s.last() != '/')
    &&& forall|i: int| 0 <= i < s.len() - 1 ==> !((#[trigger] s[i]) == '/' && s[i + 1] == '/')
}

impl View for StoreKey {
    type V = Seq<char>;

    open spec fn view(&self) -> Seq<char> {
        self.0@
    }
}

impl View for StorePrefix {
    type V = Seq<char>;

    open spec fn view(&self) -> Seq<char> {
        self.0@
    }
}

impl View for NodePath {
    type V = Seq<char>;

    open spec fn view(&self) -> Seq<char> {
        self.0@
    }
}

impl Clone for StoreKey {
    fn clone(&self) -> (r: Self)
        ensures
            r@ == self@,
    {
        StoreKey(String::from_str(self.0.as_str()))
    }
}

impl Clone for StorePrefix {
    fn clone(&self) -> (r: Self)
        ensures
            r@ == self@,
    {
        StorePrefix(String::from_str(self.0.as_str()))
    }
}

impl Clone for NodePath {
    fn clone(&self) -> (r: Self)
        ensures
            r@ == self@,
    {
        NodePath(String::from_str(self.0.as_str()))
    }
}

impl StoreKey {
    /// The key's characters are valid.
    pub open spec fn wf(&self) -> bool {
        valid_key_chars(self@)
    }

    /// Create a store key, rejecting an invalid one.
    pub fn new(key: &str) -> (r: Result<StoreKey, StoreKeyError>)
        ensures
            r is Ok <==> valid_key_chars(key@),
            r matches Ok(k) ==> k@ == key@ && k.wf(),
            r matches Err(e) ==> e.0@ == key@,
    {
        if StoreKey::validate(key) {
            Ok(StoreKey(String::from_str(key)))
        } else {
            Err(StoreKeyError(String::from_str(key)))
        }
    }

    /// The underlying string.
    pub fn as_str(&self) -> (r: &str)
        ensures
            r@ == self@,
    {
        self.0.as_str()
    }

    /// Whether `key` is a valid store key: non-empty, not ending in `/`.
    pub fn validate(key: &str) -> (r: bool)
        ensures
            r == valid_key_chars(key@),
    {
        let n = key.unicode_len();
        if n == 0 {
            return false;
        }
        key.get_char(n - 1) != '/'
    }

    /// Whether the key starts with the prefix's characters.
    pub fn has_prefix(&self, prefix: &StorePrefix) -> (r: bool)
        ensures
            r == starts_with_chars(self@, prefix@),
    {
        str_starts_with(self.0.as_str(), prefix.0.as_str())
    }

    /// The prefix naming this key's own contents: the key followed by `/`.
    pub fn to_prefix(&self) -> (r: StorePrefix)
        ensures
            r@ == self@ + seq!['/'],
    {
        let mut s = String::from_str(self.0.as_str());
        s.append("/");
        proof {
            reveal_strlit("/");
            assert("/"@ =~= seq!['/']);
        }
        StorePrefix(s)
    }

    /// The prefix holding this key, or nothing when the key has no `/`.
    pub fn parent(&self) -> (r: Option<StorePrefix>)
        ensures
            r is Some <==> exists|i: int| 0 <= i < self@.len() && self@[i] == '/',
            r matches Some(p) ==> {
                &&& 1 <= p@.len() <= self@.len()
                &&& p@ == self@.subrange(0, p@.len() as int)
                &&& p@.last() == '/'
                &&& forall|j: int| p@.len() <= j < self@.len() ==> self@[j] != '/'
            },
    {
        let n = self.0.as_str().unicode_len();
        let mut i: usize = n;
        while i > 0
            invariant
                i <= n,
                n == self@.len(),
                forall|j: int| i <= j < n ==> self@[j] != '/',
            decreases i,
        {
            if self.0.as_str().get_char(i - 1) == '/' {
                let p = self.0.as_str().substring_char(0, i).to_owned();
                proof {
                    assert(p@ =~= self@.subrange(0, i as int));
                    assert(p@.last() == self@[i - 1]);
                }
                return Some(StorePrefix(p));
            }
            i = i - 1;
        }
        None
    }
}

/// Whether `s` starts with the characters of `pre`.
pub open spec fn starts_with_chars(s: Seq<char>, pre: Seq<char>) -> bool {
    pre.len() <= s.len() && s.subrange(0, pre.len() as int) == pre
}

/// Whether one string starts with another, by characters.
pub fn str_starts_with(s: &str, pre: &str) -> (r: bool)
    ensures
        r == starts_with_chars(s@, pre@),
{
    let n = s.unicode_len();
    let m = pre.unicode_len();
    if m > n {
        proof {
            assert(!starts_with_chars(s@, pre@));
        }
        return false;
    }
    for i in 0..m
        invariant
            m <= n,
            n == s@.len(),
            m == pre@.len(),
            forall|j: int| 0 <= j < i ==> s@[j] == pre@[j],
    {
        if s.get_char(i) != pre.get_char(i) {
            proof {
                if starts_with_chars(s@, pre@) {
                    assert(s@.subrange(0, m as int)[i as int] == pre@[i as int]);
                }
            }
            return false;
        }
    }
    proof {
        assert(s@.subrange(0, m as int) =~= pre@);
    }
    true
}

/// Whether two strings hold the same characters.
pub fn str_eq_chars(a: &str, b: &str) -> (r: bool)
    ensures
        r == (a@ == b@),
{
    let n = a.unicode_len();
    let m = b.unicode_len();
    if n != m {
        return false;
    }
    let same = str_starts_with(a, b);
    proof {
        if same {
            assert(a@.subrange(0, m as int) =~= a@);
        }
        if a@ == b@ {
            assert(a@.subrange(0, m as int) =~= b@);
        }
    }
    same
}

impl StorePrefix {
    /// The prefix's characters are valid.
    pub open spec fn wf(&self) -> bool {
        valid_prefix_chars(self@)
    }

    /// Create a store prefix, rejecting an invalid one.
    pub fn new(prefix: &str) -> (r: Result<StorePrefix, StorePrefixError>)
        ensures
            r is Ok <==> valid_prefix_chars(prefix@),
            r matches Ok(p) ==> p@ == prefix@ && p.wf(),
            r matches Err(e) ==> e.0@ == prefix@,
    {
        let n = prefix.unicode_len();
        if n == 0 || prefix.get_char(n - 1) == '/' {
            Ok(StorePrefix(String::from_str(prefix)))
        } else {
            Err(StorePrefixError(String::from_str(prefix)))
        }
    }

    /// The underlying string.
    pub fn as_str(&self) -> (r: &str)
        ensures
            r@ == self@,
    {
        self.0.as_str()
    }
}

impl NodePath {
    /// The path's characters are valid.
    pub open spec fn wf(&self) -> bool {
        valid_path_chars(self@)
    }

    /// Create a node path, rejecting an invalid one.
    pub fn new(path: &str) -> (r: Result<NodePath, NodePathError>)
        ensures
            r is Ok <==> valid_path_chars(path@),
            r matches Ok(p) ==> p@ == path@ && p.wf(),
            r matches Err(e) ==> e.0@ == path@,
    {
        let n = path.unicode_len();
        if n == 0 {
            return Err(NodePathError(String::from_str(path)));
        }
        if path.get_char(0) != '/' {
            return Err(NodePathError(String::from_str(path)));
        }
        if n > 1 && path.get_char(n - 1) == '/' {
            return Err(NodePathError(String::from_str(path)));
        }
        for i in 0..n - 1
            invariant
                1 <= n == path@.len(),
                forall|j: int| 0 <= j < i ==> !((#[trigger] path@[j]) == '/' && path@[j + 1] == '/'),
        {
            assert(i < n - 1);
            if path.get_char(i) == '/' && path.get_char(i + 1) == '/' {
                return Err(NodePathError(String::from_str(path)));
            }
        }
        Ok(NodePath(String::from_str(path)))
    }

    /// The underlying string.
    pub fn as_str(&self) -> (r: &str)
        ensures
            r@ == self@,
    {
        self.0.as_str()
    }

    /// Whether this is the root path.
    pub fn is_root(&self) -> (r: bool)
        requires
            self.wf(),
        ensures
            r == (self@ =~= seq!['/']),
    {
        let n = self.0.as_str().unicode_len();
        proof {
            if n == 1 {
                assert(self@ =~= seq!['/']);
            }
        }
        n == 1
    }
}

/// The decimal digits of `n`, most significant first.
pub open spec fn dec_digits(n: int) -> Seq<char>
    decreases n,
{
    if n < 10 {
        seq![digit_char(n)]
    } else {
        dec_digits(n / 10).push(digit_char(n % 10))
    }
}

/// The character of one decimal digit.
pub open spec fn digit_char(d: int) -> char {
    if d == 0 {
        '0'
    } else if d == 1 {
        '1'
    } else if d == 2 {
        '2'
    } else if d == 3 {
        '3'
    } else if d == 4 {
        '4'
    } else if d == 5 {
        '5'
    } else if d == 6 {
        '6'
    } else if d == 7 {
        '7'
    } else if d == 8 {
        '8'
    } else {
        '9'
    }
}

/// Append one decimal digit's character.
fn push_digit(d: u64, out: &mut String)
    requires
        d < 10,
    ensures
        final(out)@ == old(out)@ + seq![digit_char(d as int)],
{
    proof {
        reveal_strlit("0");
        reveal_strlit("1");
        reveal_strlit("2");
        reveal_strlit("3");
        reveal_strlit("4");
        reveal_strlit("5");
        reveal_strlit("6");
        reveal_strlit("7");
        reveal_strlit("8");
        reveal_strlit("9");
    }
    if d == 0 {
        out.append("0");
        assert(out@ =~= old(out)@ + seq![digit_char(d as int)]);
    } else if d == 1 {
        out.append("1");
        assert(out@ =~= old(out)@ + seq![digit_char(d as int)]);
    } else if d == 2 {
        out.append("2");
        assert(out@ =~= old(out)@ + seq![digit_char(d as int)]);
    } else if d == 3 {
        out.append("3");
        assert(out@ =~= old(out)@ + seq![digit_char(d as int)]);
    } else if d == 4 {
        out.append("4");
        assert(out@ =~= old(out)@ + seq![digit_char(d as int)]);
    } else if d == 5 {
        out.append("5");
        assert(out@ =~= old(out)@ + seq![digit_char(d as int)]);
    } else if d == 6 {
        out.append("6");
        assert(out@ =~= old(out)@ + seq![digit_char(d as int)]);
    } else if d == 7 {
        out.append("7");
        assert(out@ =~= old(out)@ + seq![digit_char(d as int)]);
    } else if d == 8 {
        out.append("8");
        assert(out@ =~= old(out)@ + seq![digit_char(d as int)]);
    } else {
        out.append("9");
        assert(out@ =~= old(out)@ + seq![digit_char(d as int)]);
    }
}

/// Append the decimal digits of `n`.
pub fn push_decimal(n: u64, out: &mut String)
    ensures
        final(out)@ == old(out)@ + dec_digits(n as int),
    decreases n,
{
    if n < 10 {
        push_digit(n, out);
    } else {
        push_decimal(n / 10, out);
        let ghost mid = out@;
        push_digit(n % 10, out);
        proof {
            assert(out@ =~= old(out)@ + dec_digits(n as int));
        }
    }
}

/// The deterministic chunk key encoding: the `default` Zarr V3 encoding, a
/// literal `c` followed by the coordinates joined by the separator.
#[derive(Debug)]
pub struct ChunkKeyEncoding {
    pub separator: char,
}

/// The characters of the encoded chunk key: `c`, then each coordinate in
/// decimal, each preceded by the separator.
pub open spec fn chunk_key_chars(indices: Seq<u64>, separator: char) -> Seq<char>
    decreases indices.len(),
{
    if indices.len() == 0 {
        seq!['c']
    } else {
        chunk_key_chars(indices.drop_last(), separator) + seq![separator] + dec_digits(
            indices.last() as int,
        )
    }
}

impl ChunkKeyEncoding {
    /// The separator is `/` or `.`.
    pub open spec fn wf(&self) -> bool {
        self.separator == '/' || self.separator == '.'
    }

    /// The `default` encoding with the given separator, `/` or `.`.
    pub fn new_default(separator: char) -> (r: Self)
        requires
            separator == '/' || separator == '.',
        ensures
            r.separator == separator,
            r.wf(),
    {
        ChunkKeyEncoding { separator }
    }

    /// Encode chunk grid coordinates as the data key's final segments.
    pub fn encode(&self, chunk_grid_indices: &Vec<u64>) -> (r: String)
        requires
            self.wf(),
        ensures
            r@ == chunk_key_chars(chunk_grid_indices@, self.separator),
    {
        let mut out = String::new();
        proof {
            reveal_strlit("c");
            reveal_strlit("/");
            reveal_strlit(".");
        }
        out.append("c");
        proof {
            assert(out@ =~= chunk_key_chars(chunk_grid_indices@.take(0int), self.separator));
        }
        let n = chunk_grid_indices.len();
        for i in 0..n
            invariant
                n == chunk_grid_indices@.len(),
                self.wf(),
                out@ == chunk_key_chars(chunk_grid_indices@.take(i as int), self.separator),
        {
            proof {
                reveal_strlit("/");
                reveal_strlit(".");
            }
            let ghost before = out@;
            if self.separator == '/' {
                out.append("/");
            } else {
                out.append(".");
            }
            proof {
                assert(out@ =~= before + seq![self.separator]);
            }
            push_decimal(chunk_grid_indices[i], &mut out);
            proof {
                assert(chunk_grid_indices@.take(i + 1).drop_last() =~= chunk_grid_indices@.take(
                    i as int,
                ));
                assert(chunk_grid_indices@.take(i + 1).last() == chunk_grid_indices@[i as int]);
                assert(out@ =~= chunk_key_chars(chunk_grid_indices@.take(i + 1), self.separator));
            }
        }
        proof {
            assert(chunk_grid_indices@.take(n as int) =~= chunk_grid_indices@);
        }
        out
    }
}

impl Clone for ChunkKeyEncoding {
    fn clone(&self) -> (r: Self)
        ensures
            r.separator == self.separator,
    {
        ChunkKeyEncoding { separator: self.separator }
    }
}

/// The characters of the metadata key under a node path.
pub open spec fn meta_key_chars(path: Seq<char>) -> Seq<char> {
    if path =~= seq!['/'] {
        zarr_json_chars()
    } else {
        path.skip(1) + seq!['/'] + zarr_json_chars()
    }
}

/// The characters of the metadata document's file name.
pub open spec fn zarr_json_chars() -> Seq<char> {
    seq!['z', 'a', 'r', 'r', '.', 'j', 's', 'o', 'n']
}

/// The characters of the data key of one chunk under a node path.
pub open spec fn data_key_chars(path: Seq<char>, indices: Seq<u64>, separator: char) -> Seq<char> {
    if path =~= seq!['/'] {
        chunk_key_chars(indices, separator)
    } else {
        path.skip(1) + seq!['/'] + chunk_key_chars(indices, separator)
    }
}

/// The decimal digits of a number are never empty and never end in `/`.
pub proof fn lemma_dec_digits_key(n: int)
    ensures
        dec_digits(n).len() >= 1,
        dec_digits(n).last() != '/',
    decreases n,
{
    if n >= 10 {
        lemma_dec_digits_key(n / 10);
    }
}

/// An encoded chunk key is never empty and never ends in `/`.
pub proof fn lemma_chunk_key_chars_key(indices: Seq<u64>, separator: char)
    ensures
        chunk_key_chars(indices, separator).len() >= 1,
        chunk_key_chars(indices, separator).last() != '/',
    decreases indices.len(),
{
    if indices.len() == 0 {
    } else {
        lemma_dec_digits_key(indices.last() as int);
    }
}

/// A data key is a valid store key.
pub proof fn lemma_data_key_valid(path: Seq<char>, indices: Seq<u64>, separator: char)
    ensures
        valid_key_chars(data_key_chars(path, indices, separator)),
{
    lemma_chunk_key_chars_key(indices, separator);
}

/// The metadata key for a node: `zarr.json` under the node's directory.
pub fn meta_key(path: &NodePath) -> (r: StoreKey)
    requires
        path.wf(),
    ensures
        r@ == meta_key_chars(path@),
{
    proof {
        reveal_strlit("zarr.json");
        assert("zarr.json"@ =~= zarr_json_chars());
        reveal_strlit("/");
        assert("/"@ =~= seq!['/']);
    }
    if path.is_root() {
        StoreKey(String::from_str("zarr.json"))
    } else {
        let s = path.as_str();
        let n = s.unicode_len();
        let mut out = s.substring_char(1, n).to_owned();
        proof {
            assert(out@ =~= path@.skip(1));
        }
        out.append("/");
        out.append("zarr.json");
        proof {
            assert(out@ =~= path@.skip(1) + seq!['/'] + zarr_json_chars());
        }
        StoreKey(out)
    }
}

/// The data key of one chunk: the encoded chunk coordinates under the
/// node's directory.
pub fn data_key(
    path: &NodePath,
    chunk_grid_indices: &Vec<u64>,
    chunk_key_encoding: &ChunkKeyEncoding,
) -> (r: StoreKey)
    requires
        path.wf(),
        chunk_key_encoding.wf(),
    ensures
        r@ == data_key_chars(path@, chunk_grid_indices@, chunk_key_encoding.separator),
{
    let encoded = chunk_key_encoding.encode(chunk_grid_indices);
    if path.is_root() {
        StoreKey(encoded)
    } else {
        let s = path.as_str();
        let n = s.unicode_len();
        let mut out = s.substring_char(1, n).to_owned();
        proof {
            assert(out@ =~= path@.skip(1));
            reveal_strlit("/");
            assert("/"@ =~= seq!['/']);
        }
        out.append("/");
        out.append(encoded.as_str());
        proof {
            assert(out@ =~= path@.skip(1) + seq!['/'] + chunk_key_chars(
                chunk_grid_indices@,
                chunk_key_encoding.separator,
            ));
        }
        StoreKey(out)
    }
}

} // verus!
