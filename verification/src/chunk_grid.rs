//! The regular chunk grid: a per-dimension chunk extent tiling the array,
//! with the final chunk along each axis truncated to the array bound.

use crate::subset::{
    all_positive, copy_u64_vec, min_i, num_elements, ArraySubset,
};
use vstd::arithmetic::div_mod::{lemma_fundamental_div_mod, lemma_fundamental_div_mod_converse};
use vstd::prelude::*;

verus! {

broadcast use vstd::arithmetic::mul::lemma_mul_is_commutative;

/// The number of chunks of extent `c` needed to cover `a` elements.
pub open spec fn ceil_div(a: int, c: int) -> int {
    (a + c - 1) / c
}

/// A regular chunk grid over an array of the given extents.
pub struct RegularChunkGrid {
    pub array_shape: Vec<u64>,
    pub chunk_shape: Vec<u64>,
}

impl RegularChunkGrid {
    /// The two shapes agree in dimensionality, the array has at least one
    /// axis and every chunk extent is positive.
    pub open spec fn wf(&self) -> bool {
        &&& self.array_shape@.len() == self.chunk_shape@.len()
        &&& 1 <= self.array_shape@.len()
        &&& all_positive(self.chunk_shape@)
    }

    pub open spec fn dim(&self) -> nat {
        self.array_shape@.len()
    }

    /// The per-axis count of chunks.
    pub open spec fn spec_grid_shape(&self) -> Seq<u64> {
        Seq::new(
            self.dim(),
            |i: int| ceil_div(self.array_shape@[i] as int, self.chunk_shape@[i] as int) as u64,
        )
    }

    /// The array position at which chunk `k` starts.
    pub open spec fn spec_chunk_origin(&self, k: Seq<u64>) -> Seq<u64> {
        Seq::new(self.dim(), |i: int| (k[i] * self.chunk_shape@[i]) as u64)
    }

    /// The extents of chunk `k`: the grid's chunk extents, truncated at the
    /// array bound along each axis.
    pub open spec fn spec_chunk_extents(&self, k: Seq<u64>) -> Seq<u64> {
        Seq::new(
            self.dim(),
            |i: int|
                min_i(
                    self.chunk_shape@[i] as int,
                    self.array_shape@[i] - k[i] * self.chunk_shape@[i],
                ) as u64,
        )
    }

    /// The grid coordinate of the chunk holding array position `g`.
    pub open spec fn spec_owning_chunk(&self, g: Seq<u64>) -> Seq<u64> {
        Seq::new(self.dim(), |i: int| (g[i] as int / self.chunk_shape@[i] as int) as u64)
    }

    /// The array position of `g` within its owning chunk.
    pub open spec fn spec_within_chunk(&self, g: Seq<u64>) -> Seq<u64> {
        Seq::new(self.dim(), |i: int| (g[i] as int % self.chunk_shape@[i] as int) as u64)
    }

    /// The grid shape as a vector.
    pub fn grid_shape(&self) -> (r: Vec<u64>)
        requires
            self.wf(),
        ensures
            r@ == self.spec_grid_shape(),
    {
        let n = self.array_shape.len();
        let mut r: Vec<u64> = Vec::new();
        for i in 0..n
            invariant
                n == self.array_shape@.len() == self.chunk_shape@.len(),
                all_positive(self.chunk_shape@),
                r@ =~= self.spec_grid_shape().take(i as int),
        {
            let a = self.array_shape[i];
            let c = self.chunk_shape[i];
            let q0 = a / c;
            proof {
                lemma_fundamental_div_mod(a as int, c as int);
                lemma_div_nonneg(a as int, c as int);
                lemma_ceil_div_split(a as int, c as int);
                if a as int % c as int != 0 {
                    assert(q0 + 1 <= a) by (nonlinear_arith)
                        requires
                            a as int == c as int * q0 as int + (a as int % c as int),
                            1 <= a as int % c as int,
                            (a as int % c as int) < c as int,
                            1 <= c as int,
                            0 <= q0 as int,
                    ;
                }
            }
            let q = if a % c != 0 {
                q0 + 1
            } else {
                q0
            };
            r.push(q);
            assert(r@ =~= self.spec_grid_shape().take(i + 1));
        }
        assert(r@ =~= self.spec_grid_shape());
        r
    }

    /// The region of the array covered by chunk `k`, truncated to the array
    /// bound.
    pub fn chunk_subset(&self, k: &Vec<u64>) -> (r: ArraySubset)
        requires
            self.wf(),
            k@.len() == self.dim(),
            forall|i: int| 0 <= i < k@.len() ==> k@[i] < self.spec_grid_shape()[i],
        ensures
            r.wf(),
            r.start@ == self.spec_chunk_origin(k@),
            r.shape@ == self.spec_chunk_extents(k@),
            r.spec_inbounds(self.array_shape@),
            all_positive(r.shape@),
    {
        let n = self.array_shape.len();
        let mut start: Vec<u64> = Vec::new();
        let mut shape: Vec<u64> = Vec::new();
        for i in 0..n
            invariant
                n == self.array_shape@.len() == self.chunk_shape@.len() == k@.len(),
                all_positive(self.chunk_shape@),
                forall|t: int| 0 <= t < k@.len() ==> k@[t] < self.spec_grid_shape()[t],
                start@ =~= self.spec_chunk_origin(k@).take(i as int),
                shape@ =~= self.spec_chunk_extents(k@).take(i as int),
                forall|t: int| 0 <= t < i ==> start@[t] + shape@[t] <= self.array_shape@[t],
                forall|t: int| 0 <= t < i ==> 1 <= shape@[t],
        {
            let a = self.array_shape[i];
            let c = self.chunk_shape[i];
            proof {
                assert(k@[i as int] < self.spec_grid_shape()[i as int]);
                lemma_chunk_axis(a as int, c as int, k@[i as int] as int);
            }
            let o = k[i] * c;
            let e = if c <= a - o {
                c
            } else {
                a - o
            };
            start.push(o);
            shape.push(e);
            assert(start@ =~= self.spec_chunk_origin(k@).take(i + 1));
            assert(shape@ =~= self.spec_chunk_extents(k@).take(i + 1));
        }
        proof {
            assert(start@ =~= self.spec_chunk_origin(k@));
            assert(shape@ =~= self.spec_chunk_extents(k@));
        }
        ArraySubset::new(start, shape)
    }

    /// The grid-space region of chunks intersecting the array region
    /// `subset`. A region with no elements yields a chunk region with no
    /// elements.
    pub fn chunks_in_array_subset(&self, subset: &ArraySubset) -> (r: ArraySubset)
        requires
            self.wf(),
            subset.wf(),
            subset.spec_inbounds(self.array_shape@),
        ensures
            r.wf(),
            r.start@.len() == self.dim(),
            r.spec_inbounds(self.spec_grid_shape()),
            // every array position of `subset` has its owning chunk in `r`
            forall|g: Seq<u64>| subset.spec_contains(g) && all_positive(subset.shape@)
                ==> r.spec_contains(self.spec_owning_chunk(g)),
            all_positive(subset.shape@) ==> all_positive(r.shape@),
            (exists|i: int| 0 <= i < subset.shape@.len() && subset.shape@[i] == 0)
                ==> num_elements(r.shape@) == 0,
            forall|t: int| 0 <= t < subset.shape@.len() && subset.shape@[t] != 0 ==> (
            (#[trigger] r.start@[t]) == subset.start@[t] as int / self.chunk_shape@[t] as int
                && r.start@[t] + r.shape@[t] == (subset.start@[t] + subset.shape@[t] - 1) as int
                / self.chunk_shape@[t] as int + 1),
    {
        let n = self.array_shape.len();
        let mut start: Vec<u64> = Vec::new();
        let mut shape: Vec<u64> = Vec::new();
        let mut saw_empty = false;
        for i in 0..n
            invariant
                n == self.array_shape@.len() == self.chunk_shape@.len(),
                n == subset.start@.len() == subset.shape@.len(),
                all_positive(self.chunk_shape@),
                forall|t: int| 0 <= t < n ==> subset.start@[t] + subset.shape@[t]
                    <= self.array_shape@[t],
                start@.len() == i,
                shape@.len() == i,
                saw_empty <==> exists|t: int| 0 <= t < i && subset.shape@[t] == 0,
                forall|t: int| 0 <= t < i ==> start@[t] + shape@[t] <= self.spec_grid_shape()[t],
                forall|t: int| 0 <= t < i && subset.shape@[t] != 0 ==> (1 <= shape@[t]
                    && start@[t] == subset.start@[t] as int / self.chunk_shape@[t] as int
                    && start@[t] + shape@[t] == (subset.start@[t] + subset.shape@[t] - 1) as int
                        / self.chunk_shape@[t] as int + 1),
                forall|t: int| 0 <= t < i && subset.shape@[t] == 0 ==> shape@[t] == 0,
        {
            let s = subset.start[i];
            let m = subset.shape[i];
            let c = self.chunk_shape[i];
            let a = self.array_shape[i];
            if m == 0 {
                proof {
                    lemma_div_nonneg(s as int, c as int);
                    lemma_ceil_div_split(a as int, c as int);
                    if s < a {
                        lemma_chunk_owner_axis(a as int, c as int, s as int);
                    }
                }
                let lo = if s < a {
                    s / c
                } else {
                    0
                };
                start.push(lo);
                shape.push(0);
                saw_empty = true;
            } else {
                let lo = s / c;
                let hi = (s + m - 1) / c;
                proof {
                    lemma_ceil_div_split(a as int, c as int);
                    lemma_chunk_owner_axis(a as int, c as int, s as int);
                    lemma_chunk_owner_axis(a as int, c as int, s as int + m as int - 1);
                    lemma_div_monotone(s as int, s as int + m as int - 1, c as int);
                }
                start.push(lo);
                shape.push(hi - lo + 1);
            }
        }
        let r = ArraySubset::new(start, shape);
        proof {
            if saw_empty {
                let t = choose|t: int| 0 <= t < n && subset.shape@[t] == 0;
                crate::subset::lemma_zero_extent(r.shape@, t);
            }
            assert forall|g: Seq<u64>|
                subset.spec_contains(g) && all_positive(subset.shape@) implies r.spec_contains(
                self.spec_owning_chunk(g),
            ) by {
                let k = self.spec_owning_chunk(g);
                assert forall|t: int| 0 <= t < k.len() implies r.start@[t] <= #[trigger] k[t]
                    < r.start@[t] + r.shape@[t] by {
                    assert(subset.start@[t] <= g[t] < subset.start@[t] + subset.shape@[t]);
                    assert(subset.shape@[t] >= 1);
                    lemma_div_monotone(
                        subset.start@[t] as int,
                        g[t] as int,
                        self.chunk_shape@[t] as int,
                    );
                    lemma_div_monotone(
                        g[t] as int,
                        subset.start@[t] + subset.shape@[t] - 1,
                        self.chunk_shape@[t] as int,
                    );
                }
            }
        }
        r
    }

    /// The grid coordinate of the chunk holding array position `g`.
    pub fn owning_chunk(&self, g: &Vec<u64>) -> (r: Vec<u64>)
        requires
            self.wf(),
            g@.len() == self.dim(),
        ensures
            r@ == self.spec_owning_chunk(g@),
    {
        let n = self.array_shape.len();
        let mut r: Vec<u64> = Vec::new();
        for i in 0..n
            invariant
                n == self.array_shape@.len() == self.chunk_shape@.len() == g@.len(),
                all_positive(self.chunk_shape@),
                r@ =~= self.spec_owning_chunk(g@).take(i as int),
        {
            r.push(g[i] / self.chunk_shape[i]);
            assert(r@ =~= self.spec_owning_chunk(g@).take(i + 1));
        }
        assert(r@ =~= self.spec_owning_chunk(g@));
        r
    }
}

impl Clone for RegularChunkGrid {
    fn clone(&self) -> (r: Self)
        ensures
            r.array_shape@ == self.array_shape@,
            r.chunk_shape@ == self.chunk_shape@,
    {
        RegularChunkGrid {
            array_shape: copy_u64_vec(&self.array_shape),
            chunk_shape: copy_u64_vec(&self.chunk_shape),
        }
    }
}

/// A nonnegative value divided by a positive one stays nonnegative.
pub proof fn lemma_div_nonneg(x: int, d: int)
    requires
        0 <= x,
        1 <= d,
    ensures
        0 <= x / d,
{
    lemma_fundamental_div_mod(x, d);
    let q = x / d;
    let r = x % d;
    assert(q >= 0) by (nonlinear_arith)
        requires
            x == q * d + r,
            0 <= r < d,
            0 <= x,
            1 <= d,
    ;
}

/// Division by a positive value preserves order.
pub proof fn lemma_div_monotone(x: int, y: int, d: int)
    requires
        0 <= x <= y,
        1 <= d,
    ensures
        x / d <= y / d,
{
    lemma_fundamental_div_mod(x, d);
    lemma_fundamental_div_mod(y, d);
    let qx = x / d;
    let qy = y / d;
    assert(qx <= qy) by (nonlinear_arith)
        requires
            x == qx * d + x % d,
            y == qy * d + y % d,
            0 <= x % d < d,
            0 <= y % d < d,
            x <= y,
            1 <= d,
            0 <= x,
    ;
}

/// The chunk count along one axis equals the quotient, plus one when the
/// division leaves a remainder.
pub proof fn lemma_ceil_div_split(a: int, c: int)
    requires
        0 <= a,
        1 <= c,
    ensures
        ceil_div(a, c) == a / c + if a % c != 0 {
            1int
        } else {
            0int
        },
        0 <= ceil_div(a, c) <= a,
{
    lemma_fundamental_div_mod(a, c);
    let q = a / c;
    let r = a % c;
    lemma_div_nonneg(a, c);
    if r != 0 {
        assert(a + c - 1 == (q + 1) * c + (r - 1)) by (nonlinear_arith)
            requires
                a == c * q + r,
        ;
        lemma_fundamental_div_mod_converse(a + c - 1, c, q + 1, r - 1);
        assert(q + 1 <= a) by (nonlinear_arith)
            requires
                a == c * q + r,
                1 <= r < c,
                0 <= q,
                1 <= c,
        ;
    } else {
        assert(a + c - 1 == q * c + (c - 1)) by (nonlinear_arith)
            requires
                a == c * q + r,
                r == 0,
        ;
        lemma_fundamental_div_mod_converse(a + c - 1, c, q, c - 1);
        assert(q <= a) by (nonlinear_arith)
            requires
                a == c * q + r,
                0 <= r < c,
                0 <= q,
                1 <= c,
        ;
    }
}

/// Along one axis: a chunk index below the chunk count names a chunk that
/// starts inside the array, has at least one element, and ends within the
/// array bound.
pub proof fn lemma_chunk_axis(a: int, c: int, k: int)
    requires
        0 <= a,
        1 <= c,
        0 <= k < ceil_div(a, c),
    ensures
        0 <= k * c < a,
        1 <= min_i(c, a - k * c),
        k * c + min_i(c, a - k * c) <= a,
        k * c + c <= u64::MAX || k * c + min_i(c, a - k * c) <= a,
{
    lemma_ceil_div_split(a, c);
    lemma_fundamental_div_mod(a, c);
    let q = a / c;
    let r = a % c;
    assert(0 <= k * c < a) by (nonlinear_arith)
        requires
            a == q * c + r,
            0 <= r < c,
            0 <= k,
            k < q + if r != 0 {
                1int
            } else {
                0int
            },
            1 <= c,
    ;
}

/// Along one axis: a position inside the array lies inside its owning
/// chunk's truncated extent, and that owning chunk's index is below the
/// chunk count.
pub proof fn lemma_chunk_owner_axis(a: int, c: int, g: int)
    requires
        1 <= c,
        0 <= g < a,
    ensures
        0 <= g / c < ceil_div(a, c),
        (g / c) * c <= g,
        g - (g / c) * c < min_i(c, a - (g / c) * c),
        g - (g / c) * c == g % c,
{
    lemma_fundamental_div_mod(g, c);
    lemma_div_nonneg(g, c);
    let q = g / c;
    let r = g % c;
    lemma_ceil_div_split(a, c);
    lemma_fundamental_div_mod(a, c);
    let aq = a / c;
    let ar = a % c;
    assert(q < aq + if ar != 0 {
        1int
    } else {
        0int
    } && q * c <= g && g - q * c < min_i(c, a - q * c)) by (nonlinear_arith)
        requires
            g == q * c + r,
            0 <= r < c,
            a == aq * c + ar,
            0 <= ar < c,
            g < a,
            0 <= g,
            0 <= q,
            1 <= c,
    ;
}

/// Along one axis: a position inside a chunk's truncated extent is owned by
/// that chunk.
pub proof fn lemma_chunk_member_axis(a: int, c: int, k: int, g: int)
    requires
        0 <= a,
        1 <= c,
        0 <= k < ceil_div(a, c),
        k * c <= g < k * c + min_i(c, a - k * c),
    ensures
        g / c == k,
        g % c == g - k * c,
{
    lemma_chunk_axis(a, c, k);
    lemma_fundamental_div_mod_converse(g, c, k, g - k * c);
}


/// Along one axis: every chunk index in the covering range owns some
/// position of the region.
pub proof fn lemma_chunk_range_tight(a: int, c: int, s: int, m: int, k: int)
    requires
        1 <= c,
        0 <= s,
        1 <= m,
        s + m <= a,
        s / c <= k <= (s + m - 1) / c,
    ensures
        ({
            let g = if k == s / c {
                s
            } else {
                k * c
            };
            s <= g < s + m && g / c == k && 0 <= k
        }),
{
    lemma_div_nonneg(s, c);
    if k == s / c {
    } else {
        lemma_fundamental_div_mod(s, c);
        lemma_fundamental_div_mod(s + m - 1, c);
        let qs = s / c;
        let qe = (s + m - 1) / c;
        assert(s < k * c && k * c <= s + m - 1) by (nonlinear_arith)
            requires
                s == c * qs + s % c,
                0 <= s % c < c,
                s + m - 1 == c * qe + (s + m - 1) % c,
                0 <= (s + m - 1) % c < c,
                qs < k,
                k <= qe,
                1 <= c,
        ;
        lemma_fundamental_div_mod_converse(k * c, c, k, 0);
    }
}

} // verus!
