//! Splitting a target concurrency budget between outer (per-chunk) fan-out
//! and inner (codec-internal) parallelism.

use vstd::prelude::*;

verus! {

/// A codec's self-declared window of useful internal parallelism.
#[derive(Clone, Copy, Debug, PartialEq, Eq, Structural)]
pub struct RecommendedConcurrency {
    /// The smallest useful degree of internal parallelism.
    pub min: usize,
    /// The largest useful degree of internal parallelism.
    pub max: usize,
}

impl RecommendedConcurrency {
    /// True when the window is non-empty and positive.
    pub open spec fn wf(self) -> bool {
        1 <= self.min <= self.max
    }

    /// Create a recommendation with an explicit window.
    pub fn new(min: usize, max: usize) -> (r: Self)
        requires
            1 <= min <= max,
        ensures
            r == (RecommendedConcurrency { min, max }),
            r.wf(),
    {
        Self { min, max }
    }

    /// Create a recommendation with a given upper bound and no lower demand.
    pub fn new_maximum(max: usize) -> (r: Self)
        requires
            1 <= max,
        ensures
            r == (RecommendedConcurrency { min: 1usize, max }),
            r.wf(),
    {
        Self { min: 1, max }
    }

    /// Create a recommendation demanding at least `min` threads.
    pub fn new_minimum(min: usize) -> (r: Self)
        requires
            1 <= min,
        ensures
            r == (RecommendedConcurrency { min, max: min }),
            r.wf(),
    {
        Self { min, max: min }
    }
}

/// Options threaded through every codec operation.
#[derive(Clone, Copy, Debug, PartialEq, Eq, Structural)]
pub struct CodecOptions {
    /// Whether a whole-blob decode of a checksummed codec verifies the checksum.
    pub validate_checksums: bool,
    /// The target total parallelism for the operation.
    pub concurrent_target: usize,
}

impl CodecOptions {
    /// Options with a given concurrency target, verifying checksums.
    pub fn new(concurrent_target: usize) -> (r: Self)
        requires
            1 <= concurrent_target,
        ensures
            r == (CodecOptions { validate_checksums: true, concurrent_target }),
    {
        Self { validate_checksums: true, concurrent_target }
    }

    /// Return a copy with the concurrency target replaced.
    pub fn with_concurrent_target(&self, concurrent_target: usize) -> (r: Self)
        ensures
            r == (CodecOptions { validate_checksums: self.validate_checksums, concurrent_target }),
    {
        Self { validate_checksums: self.validate_checksums, concurrent_target }
    }
}

impl Default for CodecOptions {
    /// Sequential options: a concurrency target of one, verifying checksums.
    fn default() -> (r: Self)
        ensures
            r == (CodecOptions { validate_checksums: true, concurrent_target: 1usize }),
    {
        Self { validate_checksums: true, concurrent_target: 1 }
    }
}

/// `x` forced into the closed interval `[lo, hi]`.
pub open spec fn spec_clamp(x: int, lo: int, hi: int) -> int {
    if x < lo {
        lo
    } else if x > hi {
        hi
    } else {
        x
    }
}

/// The outer (per-chunk) limit for a budget `target` over `num_chunks` chunks
/// whose codec recommends at least `rec_min` inner threads.
pub open spec fn spec_outer_limit(target: int, num_chunks: int, rec_min: int) -> int {
    spec_clamp(target / (if rec_min < 1 { 1int } else { rec_min }), 1, num_chunks)
}

/// The inner (codec) limit left over once `outer` chunk slots are taken.
pub open spec fn spec_inner_limit(target: int, outer: int, rec_min: int, rec_max: int) -> int {
    spec_clamp(target / outer, rec_min, rec_max)
}

/// Split a concurrency budget between chunk fan-out and codec internals.
///
/// The outer limit takes as many chunk slots as the budget allows while
/// leaving each decode its recommended minimum of inner threads; the inner
/// limit then spends whatever remains per slot, clamped to the codec's window.
pub fn concurrency_chunks_and_codec(
    concurrent_target: usize,
    num_chunks: usize,
    options: &CodecOptions,
    codec_concurrency: &RecommendedConcurrency,
) -> (r: (usize, CodecOptions))
    requires
        1 <= concurrent_target,
        1 <= num_chunks,
        codec_concurrency.wf(),
    ensures
        r.0 == spec_outer_limit(
            concurrent_target as int,
            num_chunks as int,
            codec_concurrency.min as int,
        ),
        r.1 == (CodecOptions {
            validate_checksums: options.validate_checksums,
            concurrent_target: spec_inner_limit(
                concurrent_target as int,
                r.0 as int,
                codec_concurrency.min as int,
                codec_concurrency.max as int,
            ) as usize,
        }),
        1 <= r.0 <= num_chunks,
{
    let den: usize = if codec_concurrency.min < 1 { 1 } else { codec_concurrency.min };
    let q: usize = concurrent_target / den;
    let outer: usize = if q < 1 {
        1
    } else if q > num_chunks {
        num_chunks
    } else {
        q
    };
    let qi: usize = concurrent_target / outer;
    let inner: usize = if qi < codec_concurrency.min {
        codec_concurrency.min
    } else if qi > codec_concurrency.max {
        codec_concurrency.max
    } else {
        qi
    };
    (outer, options.with_concurrent_target(inner))
}


} // verus!
