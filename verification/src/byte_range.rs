//! Byte ranges over store values: offsets from the start or from the end of
//! a value, with an optional length.

use vstd::prelude::*;

verus! {

/// A byte range within a value of known size. `FromStart(offset, length)`
/// starts at `offset`; `FromEnd(offset, length)` ends `offset` bytes before
/// the end. A missing length extends the range to the end (`FromStart`) or
/// to the start (`FromEnd`) of the value.
#[derive(Clone, Copy, Debug, PartialEq, Eq, Structural)]
pub enum ByteRange {
    FromStart(u64, Option<u64>),
    FromEnd(u64, Option<u64>),
}

/// An invalid byte range error: the range does not fit in the value.
#[derive(Clone, Copy, Debug, PartialEq, Eq, Structural)]
pub struct InvalidByteRangeError(pub ByteRange);

impl ByteRange {
    /// The first byte offset of the range in a value of `size` bytes.
    pub open spec fn spec_start(&self, size: int) -> int {
        match *self {
            ByteRange::FromStart(offset, _) => offset as int,
            ByteRange::FromEnd(offset, length) => match length {
                Some(l) => size - offset - l,
                None => 0,
            },
        }
    }

    /// One past the last byte offset of the range in a value of `size` bytes.
    pub open spec fn spec_end(&self, size: int) -> int {
        match *self {
            ByteRange::FromStart(offset, length) => match length {
                Some(l) => offset + l,
                None => size,
            },
            ByteRange::FromEnd(offset, _) => size - offset,
        }
    }

    /// The range lies within a value of `size` bytes.
    pub open spec fn spec_valid(&self, size: int) -> bool {
        0 <= self.spec_start(size) <= self.spec_end(size) <= size
    }
}

/// The bytes of `data` that the range addresses.
pub open spec fn extract_range_spec(data: Seq<u8>, range: ByteRange) -> Seq<u8> {
    data.subrange(range.spec_start(data.len() as int), range.spec_end(data.len() as int))
}

/// Extract the bytes a range addresses from a value, or report that the
/// range does not fit.
pub fn extract_byte_range(data: &Vec<u8>, range: &ByteRange) -> (r: Result<
    Vec<u8>,
    InvalidByteRangeError,
>)
    ensures
        r is Ok <==> range.spec_valid(data@.len() as int),
        r matches Ok(v) ==> v@ == extract_range_spec(data@, *range),
        r matches Err(e) ==> e == InvalidByteRangeError(*range),
{
    let size = data.len();
    let (start, end): (u64, u64) = match range {
        ByteRange::FromStart(offset, length) => {
            let s = *offset;
            let e = match length {
                Some(l) => {
                    if *l > u64::MAX - s {
                        return Err(InvalidByteRangeError(*range));
                    }
                    s + *l
                },
                None => size as u64,
            };
            (s, e)
        },
        ByteRange::FromEnd(offset, length) => {
            if *offset > size as u64 {
                return Err(InvalidByteRangeError(*range));
            }
            let e = size as u64 - *offset;
            let s = match length {
                Some(l) => {
                    if *l > e {
                        return Err(InvalidByteRangeError(*range));
                    }
                    e - *l
                },
                None => 0,
            };
            (s, e)
        },
    };
    if start > end || end > size as u64 {
        return Err(InvalidByteRangeError(*range));
    }
    let mut out: Vec<u8> = Vec::new();
    let s = start as usize;
    let e = end as usize;
    for i in s..e
        invariant
            s <= i <= e,
            e <= data@.len(),
            out@ =~= data@.subrange(s as int, i as int),
        decreases e - i,
    {
        out.push(data[i]);
        assert(out@ =~= data@.subrange(s as int, i + 1));
    }
    proof {
        assert(out@ =~= extract_range_spec(data@, *range));
    }
    Ok(out)
}

} // verus!
