//! Rectilinear regions of an n-dimensional array and the row-major
//! linearisation underlying chunk and output buffer layout.

use vstd::arithmetic::div_mod::{
    lemma_fundamental_div_mod, lemma_fundamental_div_mod_converse,
};
use vstd::arithmetic::mul::lemma_mul_upper_bound;
use vstd::prelude::*;

verus! {

broadcast use vstd::arithmetic::mul::lemma_mul_is_commutative;

/// The number of elements of an array of extents `shape`: the product of the
/// extents (one for the zero-dimensional array).
pub open spec fn num_elements(shape: Seq<u64>) -> nat
    decreases shape.len(),
{
    if shape.len() == 0 {
        1nat
    } else {
        num_elements(shape.drop_last()) * (shape.last() as nat)
    }
}

/// `coord` indexes an element of an array of extents `shape`.
pub open spec fn valid_coord(coord: Seq<u64>, shape: Seq<u64>) -> bool {
    coord.len() == shape.len() && forall|i: int| 0 <= i < coord.len() ==> coord[i] < shape[i]
}

/// Every extent of `shape` is positive.
pub open spec fn all_positive(shape: Seq<u64>) -> bool {
    forall|i: int| 0 <= i < shape.len() ==> 1 <= shape[i]
}

/// The row-major linear index of `coord` in an array of extents `shape`:
/// the last axis varies fastest.
pub open spec fn linear_index(coord: Seq<u64>, shape: Seq<u64>) -> int
    decreases coord.len(),
{
    if coord.len() == 0 {
        0int
    } else {
        linear_index(coord.drop_last(), shape.drop_last()) * (shape.last() as int)
            + coord.last() as int
    }
}

/// The coordinate whose row-major linear index in an array of extents
/// `shape` is `e`.
pub open spec fn coord_of(e: int, shape: Seq<u64>) -> Seq<u64>
    decreases shape.len(),
{
    if shape.len() == 0 {
        Seq::empty()
    } else {
        coord_of(e / shape.last() as int, shape.drop_last()).push((e % shape.last() as int) as u64)
    }
}

/// Componentwise sum of two coordinate vectors of equal length.
pub open spec fn vadd(a: Seq<u64>, b: Seq<u64>) -> Seq<u64> {
    Seq::new(a.len(), |i: int| (a[i] + b[i]) as u64)
}

/// Componentwise difference `a - b` of two coordinate vectors.
pub open spec fn vsub(a: Seq<u64>, b: Seq<u64>) -> Seq<u64> {
    Seq::new(a.len(), |i: int| (a[i] - b[i]) as u64)
}

pub proof fn lemma_num_elements_pos(shape: Seq<u64>)
    ensures
        num_elements(shape) >= 1 <==> all_positive(shape),
    decreases shape.len(),
{
    if shape.len() > 0 {
        lemma_num_elements_pos(shape.drop_last());
        let ne1 = num_elements(shape.drop_last());
        let l = shape.last() as nat;
        assert(num_elements(shape) == ne1 * l);
        assert(ne1 * l >= 1 <==> (ne1 >= 1 && l >= 1)) by (nonlinear_arith);
        assert(all_positive(shape) <==> (all_positive(shape.drop_last()) && shape.last() >= 1)) by {
            if all_positive(shape.drop_last()) && shape.last() >= 1 {
                assert forall|i: int| 0 <= i < shape.len() implies 1 <= shape[i] by {
                    if i < shape.len() - 1 {
                        assert(shape.drop_last()[i] == shape[i]);
                    }
                }
            }
            if all_positive(shape) {
                assert forall|i: int| 0 <= i < shape.len() - 1 implies 1 <= shape.drop_last()[i] by {
                    assert(shape[i] >= 1);
                }
            }
        }
    }
}

/// The element count of a concatenation is the product of the element counts.
pub proof fn lemma_num_elements_concat(a: Seq<u64>, b: Seq<u64>)
    ensures
        num_elements(a + b) == num_elements(a) * num_elements(b),
    decreases b.len(),
{
    if b.len() == 0 {
        assert(a + b =~= a);
        assert(num_elements(b) == 1);
        assert(num_elements(a) * 1nat == num_elements(a)) by (nonlinear_arith);
    } else {
        lemma_num_elements_concat(a, b.drop_last());
        assert((a + b).drop_last() =~= a + b.drop_last());
        assert((a + b).last() == b.last());
        assert(num_elements(a + b) == num_elements(a + b.drop_last()) * (b.last() as nat));
        assert(num_elements(b) == num_elements(b.drop_last()) * (b.last() as nat));
        assert(num_elements(a) * (num_elements(b.drop_last()) * (b.last() as nat))
            == (num_elements(a) * num_elements(b.drop_last())) * (b.last() as nat)) by (nonlinear_arith);
        assert(num_elements(a + b) == (num_elements(a) * num_elements(b.drop_last())) * (
        b.last() as nat));
        assert(num_elements(a + b) == num_elements(a) * num_elements(b));
    }
}

/// Growing any extent does not shrink the element count.
pub proof fn lemma_num_elements_monotone(a: Seq<u64>, b: Seq<u64>)
    requires
        a.len() == b.len(),
        forall|i: int| 0 <= i < a.len() ==> a[i] <= b[i],
    ensures
        num_elements(a) <= num_elements(b),
    decreases a.len(),
{
    if a.len() > 0 {
        assert forall|i: int| 0 <= i < a.len() - 1 implies a.drop_last()[i] <= b.drop_last()[i] by {}
        lemma_num_elements_monotone(a.drop_last(), b.drop_last());
        assert(num_elements(a.drop_last()) * (a.last() as nat)
            <= num_elements(b.drop_last()) * (b.last() as nat)) by {
            lemma_mul_upper_bound(
                num_elements(a.drop_last()) as int,
                num_elements(b.drop_last()) as int,
                a.last() as int,
                b.last() as int,
            );
        }
    }
}

/// A valid coordinate's linear index lies below the element count.
pub proof fn lemma_linear_index_bounds(coord: Seq<u64>, shape: Seq<u64>)
    requires
        valid_coord(coord, shape),
    ensures
        0 <= linear_index(coord, shape) < num_elements(shape),
    decreases coord.len(),
{
    if coord.len() > 0 {
        assert(valid_coord(coord.drop_last(), shape.drop_last())) by {
            assert forall|i: int| 0 <= i < coord.len() - 1 implies coord.drop_last()[i]
                < shape.drop_last()[i] by {
                assert(coord[i] < shape[i]);
            }
        }
        lemma_linear_index_bounds(coord.drop_last(), shape.drop_last());
        let li = linear_index(coord.drop_last(), shape.drop_last());
        let pr = num_elements(shape.drop_last()) as int;
        let last = shape.last() as int;
        assert(coord.last() < shape.last());
        assert(li * last + coord.last() < pr * last) by (nonlinear_arith)
            requires li < pr, 0 <= li, coord.last() < last, 0 <= coord.last();
        assert(li * last >= 0) by (nonlinear_arith)
            requires li >= 0, last >= 1;
    }
}

/// `coord_of` inverts `linear_index` on every index below the element count.
pub proof fn lemma_coord_of_roundtrip(e: int, shape: Seq<u64>)
    requires
        0 <= e < num_elements(shape),
    ensures
        valid_coord(coord_of(e, shape), shape),
        linear_index(coord_of(e, shape), shape) == e,
    decreases shape.len(),
{
    if shape.len() > 0 {
        let last = shape.last() as int;
        let pr = num_elements(shape.drop_last()) as int;
        lemma_num_elements_pos(shape);
        assert(all_positive(shape.drop_last())) by {
            assert forall|i: int| 0 <= i < shape.len() - 1 implies 1 <= shape.drop_last()[i] by {
                assert(shape[i] >= 1);
            }
        }
        lemma_num_elements_pos(shape.drop_last());
        assert(last >= 1 && pr >= 1);
        let q = e / last;
        let r = e % last;
        lemma_fundamental_div_mod(e, last);
        assert(0 <= r < last);
        assert(0 <= q < pr) by (nonlinear_arith)
            requires e == q * last + r, 0 <= r < last, 0 <= e, e < pr * last;
        lemma_coord_of_roundtrip(q, shape.drop_last());
        let c = coord_of(e, shape);
        assert(c =~= coord_of(q, shape.drop_last()).push(r as u64));
        assert(c.drop_last() =~= coord_of(q, shape.drop_last()));
        assert(c.last() == r as u64);
        assert forall|i: int| 0 <= i < c.len() implies c[i] < shape[i] by {
            if i < c.len() - 1 {
                assert(coord_of(q, shape.drop_last())[i] < shape.drop_last()[i]);
            }
        }
    }
}

/// `linear_index` inverts `coord_of` on every valid coordinate.
pub proof fn lemma_linear_coord_roundtrip(coord: Seq<u64>, shape: Seq<u64>)
    requires
        valid_coord(coord, shape),
    ensures
        coord_of(linear_index(coord, shape), shape) == coord,
    decreases coord.len(),
{
    if coord.len() == 0 {
        assert(coord_of(linear_index(coord, shape), shape) =~= coord);
    } else {
        assert(valid_coord(coord.drop_last(), shape.drop_last())) by {
            assert forall|i: int| 0 <= i < coord.len() - 1 implies coord.drop_last()[i]
                < shape.drop_last()[i] by {
                assert(coord[i] < shape[i]);
            }
        }
        lemma_linear_coord_roundtrip(coord.drop_last(), shape.drop_last());
        let li = linear_index(coord.drop_last(), shape.drop_last());
        let last = shape.last() as int;
        let e = linear_index(coord, shape);
        lemma_linear_index_bounds(coord.drop_last(), shape.drop_last());
        lemma_fundamental_div_mod_converse(e, last, li, coord.last() as int);
        assert(coord_of(e, shape) =~= coord);
    }
}

/// Splitting a linear index into a row index and a position along the last
/// axis matches appending that position to the row's coordinate.
pub proof fn lemma_coord_of_row(r: int, j: int, shape: Seq<u64>)
    requires
        shape.len() > 0,
        0 <= r,
        0 <= j < shape.last(),
    ensures
        coord_of(r * shape.last() as int + j, shape) == coord_of(r, shape.drop_last()).push(j as u64),
{
    let last = shape.last() as int;
    let e = r * last + j;
    lemma_fundamental_div_mod_converse(e, last, r, j);
    assert(coord_of(e, shape) =~= coord_of(r, shape.drop_last()).push(j as u64));
}

/// Appending an axis multiplies the leading linear index by the new extent.
pub proof fn lemma_linear_index_push(coord: Seq<u64>, shape: Seq<u64>, c: u64, s: u64)
    ensures
        linear_index(coord.push(c), shape.push(s)) == linear_index(coord, shape) * s + c,
{
    assert(coord.push(c).drop_last() =~= coord);
    assert(shape.push(s).drop_last() =~= shape);
}

/// The byte position, within the row-major layout of an array of extents
/// `parent_shape`, feeding byte `b` of the row-major layout of the region
/// `(start, shape)` with elements of `es` bytes.
pub open spec fn element_source_index(
    b: int,
    parent_shape: Seq<u64>,
    start: Seq<u64>,
    shape: Seq<u64>,
    es: nat,
) -> int {
    let e = b / es as int;
    let o = b % es as int;
    linear_index(vadd(start, coord_of(e, shape)), parent_shape) * es + o
}

/// The bytes of the region `(start, shape)` of an array of extents
/// `parent_shape` whose row-major bytes are `data`, with elements of `es`
/// bytes.
pub open spec fn project(
    data: Seq<u8>,
    parent_shape: Seq<u64>,
    start: Seq<u64>,
    shape: Seq<u64>,
    es: nat,
) -> Seq<u8> {
    Seq::new(
        num_elements(shape) * es,
        |b: int| data[element_source_index(b, parent_shape, start, shape, es)],
    )
}

/// Byte `j` of the row-major layout of an array of extents `parent_shape`
/// belongs to an element inside the region `(start, shape)`.
pub open spec fn in_window(
    j: int,
    parent_shape: Seq<u64>,
    start: Seq<u64>,
    shape: Seq<u64>,
    es: nat,
) -> bool {
    let p = coord_of(j / es as int, parent_shape);
    &&& 0 <= j < num_elements(parent_shape) * es
    &&& forall|i: int| 0 <= i < start.len() ==> start[i] <= #[trigger] p[i] < start[i] + shape[i]
}

/// For a byte `j` inside the window, the byte of the region's own row-major
/// layout that lands at `j`.
pub open spec fn window_source(
    j: int,
    parent_shape: Seq<u64>,
    start: Seq<u64>,
    shape: Seq<u64>,
    es: nat,
) -> int {
    let p = coord_of(j / es as int, parent_shape);
    linear_index(vsub(p, start), shape) * es + j % es as int
}

/// A region byte index `b` lands at a parent byte inside the window, and the
/// window's inverse map takes that parent byte back to `b`.
pub proof fn lemma_window_byte(
    b: int,
    parent_shape: Seq<u64>,
    start: Seq<u64>,
    shape: Seq<u64>,
    es: nat,
)
    requires
        es >= 1,
        start.len() == shape.len(),
        shape.len() == parent_shape.len(),
        forall|i: int| 0 <= i < start.len() ==> start[i] + shape[i] <= parent_shape[i],
        0 <= b < num_elements(shape) * es,
    ensures
        in_window(element_source_index(b, parent_shape, start, shape, es), parent_shape, start, shape, es),
        window_source(
            element_source_index(b, parent_shape, start, shape, es),
            parent_shape,
            start,
            shape,
            es,
        ) == b,
        0 <= element_source_index(b, parent_shape, start, shape, es) < num_elements(parent_shape) * es,
{
    let e = b / es as int;
    let o = b % es as int;
    lemma_fundamental_div_mod(b, es as int);
    assert(0 <= o < es);
    assert(0 <= e < num_elements(shape)) by (nonlinear_arith)
        requires
            b == e * es + o,
            0 <= o < es,
            0 <= b,
            b < num_elements(shape) * es,
            es >= 1,
    ;
    lemma_coord_of_roundtrip(e, shape);
    let c = coord_of(e, shape);
    let p = vadd(start, c);
    assert(valid_coord(p, parent_shape)) by {
        assert forall|i: int| 0 <= i < p.len() implies p[i] < parent_shape[i] by {
            assert(c[i] < shape[i]);
        }
    }
    lemma_linear_index_bounds(p, parent_shape);
    let li = linear_index(p, parent_shape);
    let j = li * es + o;
    lemma_fundamental_div_mod_converse(j, es as int, li, o);
    assert(j / es as int == li && j % es as int == o);
    lemma_linear_coord_roundtrip(p, parent_shape);
    assert(coord_of(li, parent_shape) == p);
    assert(j < num_elements(parent_shape) * es) by (nonlinear_arith)
        requires
            j == li * es + o,
            0 <= o < es,
            li < num_elements(parent_shape),
            0 <= li,
    ;
    assert(j >= 0) by (nonlinear_arith)
        requires
            j == li * es + o,
            0 <= o,
            0 <= li,
            es >= 1,
    ;
    assert forall|i: int| 0 <= i < start.len() implies start[i] <= #[trigger] p[i] < start[i]
        + shape[i] by {
        assert(c[i] < shape[i]);
    }
    assert(vsub(p, start) =~= c);
    lemma_linear_index_bounds(c, shape);
}

/// A parent byte inside the window is fed by exactly the region byte that
/// the inverse map names.
pub proof fn lemma_window_inverse(
    j: int,
    parent_shape: Seq<u64>,
    start: Seq<u64>,
    shape: Seq<u64>,
    es: nat,
)
    requires
        es >= 1,
        start.len() == shape.len(),
        shape.len() == parent_shape.len(),
        forall|i: int| 0 <= i < start.len() ==> start[i] + shape[i] <= parent_shape[i],
        in_window(j, parent_shape, start, shape, es),
    ensures
        0 <= window_source(j, parent_shape, start, shape, es) < num_elements(shape) * es,
        element_source_index(
            window_source(j, parent_shape, start, shape, es),
            parent_shape,
            start,
            shape,
            es,
        ) == j,
{
    let jl = j / es as int;
    let jo = j % es as int;
    lemma_fundamental_div_mod(j, es as int);
    assert(0 <= jo < es);
    assert(0 <= jl < num_elements(parent_shape)) by (nonlinear_arith)
        requires
            j == jl * es + jo,
            0 <= jo < es,
            0 <= j,
            j < num_elements(parent_shape) * es,
            es >= 1,
    ;
    lemma_coord_of_roundtrip(jl, parent_shape);
    let p = coord_of(jl, parent_shape);
    let c = vsub(p, start);
    assert(valid_coord(c, shape)) by {
        assert forall|i: int| 0 <= i < c.len() implies c[i] < shape[i] by {
            assert(start[i] <= p[i] < start[i] + shape[i]);
        }
    }
    lemma_linear_index_bounds(c, shape);
    let e = linear_index(c, shape);
    lemma_linear_coord_roundtrip(c, shape);
    let b = e * es + jo;
    lemma_fundamental_div_mod_converse(b, es as int, e, jo);
    assert(b / es as int == e && b % es as int == jo);
    assert(0 <= b < num_elements(shape) * es) by (nonlinear_arith)
        requires
            b == e * es + jo,
            0 <= jo < es,
            0 <= e,
            e < num_elements(shape),
    ;
    assert(vadd(start, c) =~= p);
    lemma_linear_coord_roundtrip(p, parent_shape);
    assert(linear_index(p, parent_shape) == jl) by {
        lemma_coord_of_roundtrip(jl, parent_shape);
    }
}

/// A rectilinear region of an n-dimensional array: a start coordinate and a
/// per-dimension extent.
#[derive(Debug)]
pub struct ArraySubset {
    pub start: Vec<u64>,
    pub shape: Vec<u64>,
}

/// A copy of a vector of extents or coordinates.
pub fn copy_u64_vec(v: &Vec<u64>) -> (r: Vec<u64>)
    ensures
        r@ == v@,
{
    let mut r: Vec<u64> = Vec::new();
    let n = v.len();
    for i in 0..n
        invariant
            n == v@.len(),
            r@ =~= v@.take(i as int),
    {
        r.push(v[i]);
        assert(r@ =~= v@.take(i + 1));
    }
    assert(r@ =~= v@);
    r
}

impl Clone for ArraySubset {
    fn clone(&self) -> (r: Self)
        ensures
            r.start@ == self.start@,
            r.shape@ == self.shape@,
    {
        ArraySubset { start: copy_u64_vec(&self.start), shape: copy_u64_vec(&self.shape) }
    }
}

impl PartialEq for ArraySubset {
    fn eq(&self, other: &Self) -> (r: bool) {
        let r1 = self.start == other.start;
        let r2 = self.shape == other.shape;
        proof {
            if r1 {
                assert(self.start@ =~= other.start@);
            }
            if r2 {
                assert(self.shape@ =~= other.shape@);
            }
        }
        r1 && r2
    }
}

impl vstd::std_specs::cmp::PartialEqSpecImpl for ArraySubset {
    open spec fn obeys_eq_spec() -> bool {
        true
    }

    open spec fn eq_spec(&self, other: &Self) -> bool {
        self.start@ == other.start@ && self.shape@ == other.shape@
    }
}

impl Eq for ArraySubset {

}

impl ArraySubset {
    /// The start and shape describe the same dimensionality.
    pub open spec fn wf(&self) -> bool {
        self.start@.len() == self.shape@.len()
    }

    pub open spec fn spec_start(&self) -> Seq<u64> {
        self.start@
    }

    pub open spec fn spec_shape(&self) -> Seq<u64> {
        self.shape@
    }

    /// The element count of the region.
    pub open spec fn spec_num_elements(&self) -> nat {
        num_elements(self.shape@)
    }

    /// The region lies within an array of extents `bound`: its
    /// dimensionality matches and along every axis it ends within the bound.
    pub open spec fn spec_inbounds(&self, bound: Seq<u64>) -> bool {
        &&& self.start@.len() == bound.len()
        &&& self.shape@.len() == bound.len()
        &&& forall|i: int| 0 <= i < bound.len() ==> self.start@[i] + self.shape@[i] <= bound[i]
    }

    /// `coord` (relative to the whole array) lies inside this region.
    pub open spec fn spec_contains(&self, coord: Seq<u64>) -> bool {
        &&& coord.len() == self.start@.len()
        &&& forall|i: int| 0 <= i < coord.len()
            ==> self.start@[i] <= #[trigger] coord[i] < self.start@[i] + self.shape@[i]
    }

    /// Create a region from its start coordinate and shape.
    pub fn new(start: Vec<u64>, shape: Vec<u64>) -> (r: Self)
        requires
            start@.len() == shape@.len(),
        ensures
            r.wf(),
            r.start@ == start@,
            r.shape@ == shape@,
    {
        Self { start, shape }
    }

    /// A region of extents `shape` starting at the origin.
    pub fn new_at_origin(shape: Vec<u64>) -> (r: Self)
        ensures
            r.wf(),
            r.start@ == Seq::new(shape@.len(), |i: int| 0u64),
            r.shape@ == shape@,
    {
        let mut start: Vec<u64> = Vec::new();
        let n = shape.len();
        for i in 0..n
            invariant
                start@ =~= Seq::new(i as nat, |k: int| 0u64),
        {
            start.push(0);
        }
        Self { start, shape }
    }

    /// The number of dimensions of the region.
    pub fn dimensionality(&self) -> (r: usize)
        requires
            self.wf(),
        ensures
            r == self.start@.len(),
    {
        self.start.len()
    }

    /// The start coordinate.
    pub fn start(&self) -> (r: &Vec<u64>)
        ensures
            r@ == self.start@,
    {
        &self.start
    }

    /// The per-dimension extents.
    pub fn shape(&self) -> (r: &Vec<u64>)
        ensures
            r@ == self.shape@,
    {
        &self.shape
    }

    /// The number of elements in the region.
    pub fn num_elements(&self) -> (r: u64)
        requires
            self.spec_num_elements() <= u64::MAX,
        ensures
            r == self.spec_num_elements(),
    {
        product_u64(&self.shape)
    }

    /// Whether the region lies within an array of extents `bound`.
    pub fn inbounds(&self, bound: &Vec<u64>) -> (r: bool)
        requires
            self.wf(),
        ensures
            r == self.spec_inbounds(bound@),
    {
        if self.start.len() != bound.len() {
            return false;
        }
        let n = self.start.len();
        for i in 0..n
            invariant
                n == self.start@.len() == self.shape@.len() == bound@.len(),
                forall|k: int| 0 <= k < i ==> self.start@[k] + self.shape@[k] <= bound@[k],
        {
            let s = self.start[i];
            let e = bound[i];
            if s > e || self.shape[i] > e - s {
                return false;
            }
        }
        true
    }

    /// The intersection of two regions of the same dimensionality. Along any
    /// axis where the regions do not meet the resulting extent is zero.
    pub fn overlap(&self, other: &ArraySubset) -> (r: ArraySubset)
        requires
            self.wf(),
            other.wf(),
            self.start@.len() == other.start@.len(),
            forall|i: int| 0 <= i < self.start@.len()
                ==> self.start@[i] + self.shape@[i] <= u64::MAX,
            forall|i: int| 0 <= i < other.start@.len()
                ==> other.start@[i] + other.shape@[i] <= u64::MAX,
        ensures
            r.wf(),
            r.start@.len() == self.start@.len(),
            forall|i: int| 0 <= i < r.start@.len() ==> r.start@[i] == max_u64(
                self.start@[i],
                other.start@[i],
            ),
            forall|i: int| 0 <= i < r.start@.len() ==> r.start@[i] + r.shape@[i] == max_i(
                min_i(
                    self.start@[i] + self.shape@[i],
                    other.start@[i] + other.shape@[i],
                ),
                r.start@[i] as int,
            ),
            forall|coord: Seq<u64>| r.spec_contains(coord) <==> (self.spec_contains(coord)
                && other.spec_contains(coord)),
    {
        let n = self.start.len();
        let mut start: Vec<u64> = Vec::new();
        let mut shape: Vec<u64> = Vec::new();
        for i in 0..n
            invariant
                n == self.start@.len() == self.shape@.len(),
                n == other.start@.len() == other.shape@.len(),
                forall|k: int| 0 <= k < n ==> self.start@[k] + self.shape@[k] <= u64::MAX,
                forall|k: int| 0 <= k < n ==> other.start@[k] + other.shape@[k] <= u64::MAX,
                start@.len() == i,
                shape@.len() == i,
                forall|k: int| 0 <= k < i ==> start@[k] == max_u64(self.start@[k], other.start@[k]),
                forall|k: int| 0 <= k < i ==> start@[k] + shape@[k] == max_i(
                    min_i(
                        self.start@[k] + self.shape@[k],
                        other.start@[k] + other.shape@[k],
                    ),
                    start@[k] as int,
                ),
        {
            let s1 = self.start[i];
            let s2 = other.start[i];
            let s = if s1 > s2 { s1 } else { s2 };
            let end1 = s1 + self.shape[i];
            let end2 = s2 + other.shape[i];
            let e = if end1 < end2 { end1 } else { end2 };
            let ext = if e > s { e - s } else { 0 };
            start.push(s);
            shape.push(ext);
        }
        let r = ArraySubset { start, shape };
        proof {
            assert forall|coord: Seq<u64>| r.spec_contains(coord) <==> (self.spec_contains(coord)
                && other.spec_contains(coord)) by {
                if self.spec_contains(coord) && other.spec_contains(coord) {
                    assert forall|k: int| 0 <= k < coord.len() implies r.start@[k]
                        <= #[trigger] coord[k] < r.start@[k] + r.shape@[k] by {}
                }
            }
        }
        r
    }

    /// The same region expressed relative to `origin`, defined when `origin`
    /// does not exceed the start along any axis.
    pub fn relative_to(&self, origin: &Vec<u64>) -> (r: ArraySubset)
        requires
            self.wf(),
            origin@.len() == self.start@.len(),
            forall|i: int| 0 <= i < origin@.len() ==> origin@[i] <= self.start@[i],
        ensures
            r.wf(),
            r.start@ == vsub(self.start@, origin@),
            r.shape@ == self.shape@,
    {
        let n = self.start.len();
        let mut start: Vec<u64> = Vec::new();
        for i in 0..n
            invariant
                n == self.start@.len() == origin@.len(),
                forall|k: int| 0 <= k < n ==> origin@[k] <= self.start@[k],
                start@ =~= vsub(self.start@, origin@).take(i as int),
        {
            start.push(self.start[i] - origin[i]);
            assert(start@ =~= vsub(self.start@, origin@).take(i + 1));
        }
        assert(start@ =~= vsub(self.start@, origin@));
        ArraySubset { start, shape: copy_u64_vec(&self.shape) }
    }
}

/// The value of byte `j` of the parent buffer once the first `bound` bytes
/// of the region block have been scattered into the window: the block's byte
/// where one has landed, the prior byte everywhere else.
pub open spec fn window_write_partial(
    j: int,
    bound: int,
    before: Seq<u8>,
    block: Seq<u8>,
    parent_shape: Seq<u64>,
    start: Seq<u64>,
    shape: Seq<u64>,
    es: nat,
) -> u8 {
    if in_window(j, parent_shape, start, shape, es) && window_source(
        j,
        parent_shape,
        start,
        shape,
        es,
    ) < bound {
        block[window_source(j, parent_shape, start, shape, es)]
    } else {
        before[j]
    }
}

/// Write `block`, the row-major bytes of the region `subset` with elements
/// of `es` bytes, into that window of `out`, the row-major bytes of an array
/// of extents `out_shape`. Bytes outside the window keep their values.
#[verifier::loop_isolation(false)]
#[verifier::rlimit(100)]
pub fn copy_block_into_window(
    block: &Vec<u8>,
    out: &mut Vec<u8>,
    out_shape: &Vec<u64>,
    subset: &ArraySubset,
    es: usize,
)
    requires
        subset.wf(),
        1 <= subset.start@.len(),
        subset.spec_inbounds(out_shape@),
        1 <= es,
        old(out)@.len() == num_elements(out_shape@) * es,
        block@.len() == num_elements(subset.shape@) * es,
    ensures
        final(out)@.len() == old(out)@.len(),
        forall|j: int| 0 <= j < final(out)@.len() ==> final(out)@[j] == window_write_partial(
            j,
            block@.len() as int,
            old(out)@,
            block@,
            out_shape@,
            subset.start@,
            subset.shape@,
            es as nat,
        ),
        forall|b: int| 0 <= b < block@.len() ==> final(out)@[element_source_index(
            b,
            out_shape@,
            subset.start@,
            subset.shape@,
            es as nat,
        )] == block@[b],
{
    let ghost old0 = old(out)@;
    let ghost gshape = subset.shape@;
    let ghost gstart = subset.start@;
    let d = subset.start.len();
    if block.len() == 0 {
        proof {
            assert forall|j: int| 0 <= j < out@.len() implies out@[j] == window_write_partial(
                j,
                0int,
                old0,
                block@,
                out_shape@,
                gstart,
                gshape,
                es as nat,
            ) by {
                if in_window(j, out_shape@, gstart, gshape, es as nat) {
                    lemma_window_inverse(j, out_shape@, gstart, gshape, es as nat);
                }
            }
        }
        return ;
    }
    let out_total = out.len();
    proof {
        assert(out_total == out@.len());
        assert(num_elements(gshape) >= 1) by (nonlinear_arith)
            requires
                num_elements(gshape) * es >= 1,
                es >= 1,
        ;
        lemma_num_elements_pos(gshape);
        assert(num_elements(gshape) <= block@.len()) by (nonlinear_arith)
            requires
                block@.len() == num_elements(gshape) * es,
                es >= 1,
        ;
        assert(num_elements(out_shape@) <= out@.len()) by (nonlinear_arith)
            requires
                out@.len() == num_elements(out_shape@) * es,
                es >= 1,
        ;
        // nothing of the window is written yet
        assert forall|j: int| 0 <= j < out@.len() implies out@[j] == window_write_partial(
            j,
            0int,
            old0,
            block@,
            out_shape@,
            gstart,
            gshape,
            es as nat,
        ) by {
            if in_window(j, out_shape@, gstart, gshape, es as nat) {
                lemma_window_inverse(j, out_shape@, gstart, gshape, es as nat);
            }
        }
    }
    // leading extents and start: every axis but the last
    let mut leading: Vec<u64> = Vec::new();
    let mut start_leading: Vec<u64> = Vec::new();
    for i in 0..d - 1
        invariant
            leading@ =~= gshape.take(i as int),
            start_leading@ =~= gstart.take(i as int),
    {
        leading.push(subset.shape[i]);
        start_leading.push(subset.start[i]);
        assert(leading@ =~= gshape.take(i + 1));
        assert(start_leading@ =~= gstart.take(i + 1));
    }
    proof {
        assert(leading@ =~= gshape.drop_last());
        assert(start_leading@ =~= gstart.drop_last());
        assert(all_positive(leading@)) by {
            assert forall|i: int| 0 <= i < leading@.len() implies 1 <= leading@[i] by {
                assert(gshape[i] >= 1);
            }
        }
        lemma_num_elements_pos(leading@);
        assert(num_elements(gshape) == num_elements(leading@) * (gshape.last() as nat));
        assert(num_elements(leading@) <= num_elements(gshape)) by (nonlinear_arith)
            requires
                num_elements(gshape) == num_elements(leading@) * (gshape.last() as nat),
                gshape.last() >= 1,
                num_elements(leading@) >= 0,
        ;
        assert((gshape.last() as nat) <= num_elements(gshape)) by (nonlinear_arith)
            requires
                num_elements(gshape) == num_elements(leading@) * (gshape.last() as nat),
                num_elements(leading@) >= 1,
        ;
    }
    let runlen_u64 = subset.shape[d - 1];
    let start_last = subset.start[d - 1];
    let rows: usize = product_u64(&leading) as usize;
    let runlen: usize = runlen_u64 as usize;
    proof {
        assert(0int == 0int * runlen as int * es as int) by (nonlinear_arith);
        assert(num_elements(out_shape@) <= out_total);
    }
    for r in 0..rows
        invariant
            out@.len() == old0.len(),
            forall|j: int| 0 <= j < out@.len() ==> out@[j] == window_write_partial(
                j,
                r as int * runlen as int * es as int,
                old0,
                block@,
                out_shape@,
                gstart,
                gshape,
                es as nat,
            ),
    {
        let rc = coord_from_linear(r as u64, &leading);
        // the parent coordinate of the first element of this row
        let mut prow: Vec<u64> = Vec::new();
        for i in 0..d - 1
            invariant
                prow@ =~= vadd(start_leading@, rc@).take(i as int),
        {
            proof {
                assert(rc@[i as int] < leading@[i as int]);
                assert(gstart[i as int] + gshape[i as int] <= out_shape@[i as int]);
            }
            prow.push(subset.start[i] + rc[i]);
            assert(prow@ =~= vadd(start_leading@, rc@).take(i + 1));
        }
        assert(prow@ =~= vadd(start_leading@, rc@));
        let ghost prow_leading = prow@;
        prow.push(start_last);
        proof {
            assert(prow@.drop_last() =~= prow_leading);
            assert(valid_coord(prow@, out_shape@)) by {
                assert forall|k: int| 0 <= k < d implies #[trigger] prow@[k] < out_shape@[k] by {
                    if k < d - 1 {
                        assert(rc@[k] < leading@[k]);
                        assert(gstart[k] + gshape[k] <= out_shape@[k]);
                    } else {
                        assert(gstart[k] + gshape[k] <= out_shape@[k]);
                        assert(gshape[k] >= 1);
                    }
                }
            }
        }
        let base_u64 = linear_index_u64(&prow, out_shape);
        let base: usize = base_u64 as usize;
        proof {
            assert(linear_index(prow@, out_shape@) == linear_index(
                prow_leading,
                out_shape@.drop_last(),
            ) * (out_shape@.last() as int) + start_last);
        }
        for j in 0..runlen
            invariant
                out@.len() == old0.len(),
                forall|jx: int| 0 <= jx < out@.len() ==> out@[jx] == window_write_partial(
                    jx,
                    (r as int * runlen as int + j as int) * es as int,
                    old0,
                    block@,
                    out_shape@,
                    gstart,
                    gshape,
                    es as nat,
                ),
        {
            let ghost ee = r as int * runlen as int + j as int;
            proof {
                assert(ee < num_elements(gshape)) by (nonlinear_arith)
                    requires
                        ee == r as int * runlen as int + j as int,
                        0 <= r < num_elements(leading@),
                        0 <= j < runlen,
                        runlen == gshape.last(),
                        num_elements(gshape) == num_elements(leading@) * (runlen as nat),
                ;
                assert(ee >= 0) by (nonlinear_arith)
                    requires
                        ee == r as int * runlen as int + j as int,
                        0 <= r,
                        0 <= j,
                        0 <= runlen,
                ;
                lemma_coord_of_row(r as int, j as int, gshape);
                assert(coord_of(ee, gshape) == coord_of(r as int, gshape.drop_last()).push(
                    j as u64,
                ));
            }
            let ghost full = vadd(gstart, coord_of(ee, gshape));
            proof {
                assert(full =~= prow_leading.push((start_last + j as u64) as u64)) by {
                    assert forall|k: int| 0 <= k < d implies full[k] == prow_leading.push(
                        (start_last + j as u64) as u64,
                    )[k] by {
                        if k < d - 1 {
                            assert(coord_of(ee, gshape)[k] == rc@[k]);
                        } else {
                            assert(coord_of(ee, gshape)[k] == j as u64);
                            assert(gstart[k] + gshape[k] <= out_shape@[k]);
                        }
                    }
                }
                assert(full.drop_last() =~= prow_leading);
                assert(linear_index(full, out_shape@) == linear_index(
                    prow_leading,
                    out_shape@.drop_last(),
                ) * (out_shape@.last() as int) + start_last + j);
                assert(linear_index(full, out_shape@) == base_u64 + j);
            }
            for o in 0..es
                invariant
                    out@.len() == old0.len(),
                    forall|jx: int| 0 <= jx < out@.len() ==> out@[jx] == window_write_partial(
                        jx,
                        ee * es as int + o as int,
                        old0,
                        block@,
                        out_shape@,
                        gstart,
                        gshape,
                        es as nat,
                    ),
            {
                let ghost bb = ee * es as int + o as int;
                proof {
                    lemma_fundamental_div_mod_converse(bb, es as int, ee, o as int);
                    assert(0 <= bb < num_elements(gshape) * es) by (nonlinear_arith)
                        requires
                            bb == ee * es + o,
                            0 <= o < es,
                            0 <= ee < num_elements(gshape),
                    ;
                    assert(element_source_index(bb, out_shape@, gstart, gshape, es as nat) == (
                    base_u64 as int + j) * es + o);
                    lemma_window_byte(bb, out_shape@, gstart, gshape, es as nat);
                    // the machine computation of the target index stays in bounds
                    assert((base_u64 as int + j) * es + o < out@.len());
                    assert(base_u64 as int + j <= (base_u64 as int + j) * es) by (nonlinear_arith)
                        requires
                            es >= 1,
                            base_u64 as int + j >= 0,
                    ;
                    assert(ee <= ee * es) by (nonlinear_arith)
                        requires
                            es >= 1,
                            ee >= 0,
                    ;
                }
                let idx: usize = (base + j) * es + o;
                let bidx: usize = (r * runlen + j) * es + o;
                let ghost prev = out@;
                let v = block[bidx];
                out.set(idx, v);
                proof {
                    assert(idx as int == element_source_index(
                        bb,
                        out_shape@,
                        gstart,
                        gshape,
                        es as nat,
                    ));
                    assert(bidx as int == bb);
                    assert forall|jx: int| 0 <= jx < out@.len() implies out@[jx]
                        == window_write_partial(
                        jx,
                        bb + 1,
                        old0,
                        block@,
                        out_shape@,
                        gstart,
                        gshape,
                        es as nat,
                    ) by {
                        if jx == idx as int {
                            assert(in_window(jx, out_shape@, gstart, gshape, es as nat));
                            assert(window_source(jx, out_shape@, gstart, gshape, es as nat) == bb);
                            assert(out@[jx] == block@[bb]);
                        } else {
                            assert(out@[jx] == prev[jx]);
                            if in_window(jx, out_shape@, gstart, gshape, es as nat)
                                && window_source(jx, out_shape@, gstart, gshape, es as nat) == bb {
                                lemma_window_inverse(jx, out_shape@, gstart, gshape, es as nat);
                                assert(false);
                            }
                        }
                    }
                }
            }
            proof {
                assert(ee * es as int + es as int == (r as int * runlen as int + j + 1) * es as int)
                    by (nonlinear_arith)
                    requires
                        ee == r as int * runlen as int + j as int,
                ;
            }
        }
        proof {
            assert((r as int * runlen as int + runlen as int) * es as int == (r + 1) as int
                * runlen as int * es as int) by (nonlinear_arith);
        }
    }
    proof {
        assert(rows as int * runlen as int * es as int == block@.len()) by (nonlinear_arith)
            requires
                block@.len() == num_elements(gshape) * es,
                num_elements(gshape) == num_elements(leading@) * (runlen as nat),
                rows == num_elements(leading@),
                runlen == gshape.last(),
        ;
        assert forall|b: int| 0 <= b < block@.len() implies out@[element_source_index(
            b,
            out_shape@,
            gstart,
            gshape,
            es as nat,
        )] == block@[b] by {
            lemma_window_byte(b, out_shape@, gstart, gshape, es as nat);
        }
    }
}

/// Fill the window of `out` described by `subset` with the element pattern
/// `fill`, repeated element-aligned. Bytes outside the window keep their
/// values.
#[verifier::loop_isolation(false)]
pub fn fill_window(
    fill: &Vec<u8>,
    out: &mut Vec<u8>,
    out_shape: &Vec<u64>,
    subset: &ArraySubset,
)
    requires
        subset.wf(),
        1 <= subset.start@.len(),
        subset.spec_inbounds(out_shape@),
        1 <= fill@.len(),
        num_elements(subset.shape@) * fill@.len() <= usize::MAX,
        old(out)@.len() == num_elements(out_shape@) * fill@.len(),
    ensures
        final(out)@.len() == old(out)@.len(),
        forall|j: int| 0 <= j < final(out)@.len() && in_window(
            j,
            out_shape@,
            subset.start@,
            subset.shape@,
            fill@.len(),
        ) ==> final(out)@[j] == fill@[j % fill@.len() as int],
        forall|j: int| 0 <= j < final(out)@.len() && !in_window(
            j,
            out_shape@,
            subset.start@,
            subset.shape@,
            fill@.len(),
        ) ==> final(out)@[j] == old(out)@[j],
{
    let es = fill.len();
    proof {
        assert(num_elements(subset.shape@) <= usize::MAX) by (nonlinear_arith)
            requires
                num_elements(subset.shape@) * fill@.len() <= usize::MAX,
                fill@.len() >= 1,
        ;
    }
    // materialise the window's worth of the repeated pattern
    let count_u64 = product_u64(&subset.shape);
    let count: usize = count_u64 as usize;
    let mut block: Vec<u8> = Vec::new();
    let total = count * es;
    for t in 0..total
        invariant
            es == fill@.len(),
            1 <= es,
            total == count * es,
            block@.len() == t,
            forall|b: int| 0 <= b < t ==> block@[b] == fill@[b % es as int],
    {
        let v = fill[t % es];
        block.push(v);
        proof {
            lemma_fundamental_div_mod(t as int, es as int);
        }
    }
    copy_block_into_window(&block, out, out_shape, subset, es);
    proof {
        assert forall|j: int|
            0 <= j < out@.len() && in_window(j, out_shape@, subset.start@, subset.shape@, es as nat)
            implies out@[j] == fill@[j % es as int] by {
            lemma_window_inverse(j, out_shape@, subset.start@, subset.shape@, es as nat);
            let ws = window_source(j, out_shape@, subset.start@, subset.shape@, es as nat);
            assert(out@[j] == block@[ws]);
            let p = coord_of(j / es as int, out_shape@);
            let li = linear_index(vsub(p, subset.start@), subset.shape@);
            assert(ws == li * es + j % es as int);
            lemma_fundamental_div_mod(j, es as int);
            lemma_fundamental_div_mod_converse(ws, es as int, li, j % es as int);
            assert(ws % es as int == j % es as int);
            assert(block@[ws] == fill@[ws % es as int]);
        }
    }
}

/// The bytes of the region `subset` of an array of extents `parent_shape`
/// whose row-major bytes are `data`, gathered element by element.
#[verifier::loop_isolation(false)]
pub fn extract_window(
    data: &Vec<u8>,
    parent_shape: &Vec<u64>,
    subset: &ArraySubset,
    es: usize,
) -> (r: Vec<u8>)
    requires
        subset.wf(),
        subset.spec_inbounds(parent_shape@),
        1 <= es,
        data@.len() == num_elements(parent_shape@) * es,
    ensures
        r@ == project(data@, parent_shape@, subset.start@, subset.shape@, es as nat),
{
    let ghost gstart = subset.start@;
    let ghost gshape = subset.shape@;
    let mut out: Vec<u8> = Vec::new();
    let n = subset.start.len();
    let mut any_zero = false;
    for i in 0..n
        invariant
            any_zero <==> exists|k: int| 0 <= k < i && gshape[k] == 0,
    {
        if subset.shape[i] == 0 {
            any_zero = true;
        }
    }
    if any_zero {
        proof {
            let z = choose|k: int| 0 <= k < n && gshape[k] == 0;
            lemma_zero_extent(gshape, z);
            assert(num_elements(gshape) * es == 0) by (nonlinear_arith)
                requires
                    num_elements(gshape) == 0,
            ;
            assert(out@ =~= project(data@, parent_shape@, gstart, gshape, es as nat));
        }
        return out;
    }
    let data_total = data.len();
    proof {
        assert(data_total == data@.len());
        assert(all_positive(gshape));
        lemma_num_elements_pos(gshape);
        lemma_num_elements_monotone(gshape, parent_shape@);
        assert(num_elements(parent_shape@) <= data@.len()) by (nonlinear_arith)
            requires
                data@.len() == num_elements(parent_shape@) * es,
                es >= 1,
        ;
        assert(0int * es as int == 0) by (nonlinear_arith);
    }
    let ne = product_u64(&subset.shape) as usize;
    for e in 0..ne
        invariant
            out@.len() == e * es,
            forall|b: int| 0 <= b < out@.len() ==> out@[b] == data@[element_source_index(
                b,
                parent_shape@,
                gstart,
                gshape,
                es as nat,
            )],
    {
        let c = coord_from_linear(e as u64, &subset.shape);
        let mut p: Vec<u64> = Vec::new();
        for i in 0..n
            invariant
                c@ == coord_of(e as int, gshape),
                valid_coord(c@, gshape),
                p@ =~= vadd(gstart, c@).take(i as int),
        {
            proof {
                assert(c@[i as int] < gshape[i as int]);
                assert(gstart[i as int] + gshape[i as int] <= parent_shape@[i as int]);
            }
            p.push(subset.start[i] + c[i]);
            assert(p@ =~= vadd(gstart, c@).take(i + 1));
        }
        proof {
            assert(p@ =~= vadd(gstart, c@));
            assert(valid_coord(p@, parent_shape@)) by {
                assert forall|k: int| 0 <= k < n implies #[trigger] p@[k] < parent_shape@[k] by {
                    assert(c@[k] < gshape[k]);
                    assert(gstart[k] + gshape[k] <= parent_shape@[k]);
                }
            }
        }
        let src = linear_index_u64(&p, parent_shape) as usize;
        proof {
            assert(src as int * es + es <= num_elements(parent_shape@) * es) by (nonlinear_arith)
                requires
                    (src as int) < num_elements(parent_shape@),
                    0 <= src as int,
                    1 <= es,
            ;
        }
        for o in 0..es
            invariant
                out@.len() == e * es + o,
                src as int == linear_index(vadd(gstart, coord_of(e as int, gshape)), parent_shape@),
                src as int * es + es <= data@.len(),
                forall|b: int| 0 <= b < out@.len() ==> out@[b] == data@[element_source_index(
                    b,
                    parent_shape@,
                    gstart,
                    gshape,
                    es as nat,
                )],
        {
            let ghost bb = e * es + o;
            out.push(data[src * es + o]);
            proof {
                lemma_fundamental_div_mod_converse(bb as int, es as int, e as int, o as int);
                assert(element_source_index(bb as int, parent_shape@, gstart, gshape, es as nat)
                    == src as int * es + o);
            }
        }
        proof {
            assert(e * es + es == (e + 1) * es) by (nonlinear_arith);
        }
    }
    proof {
        assert(ne * es == num_elements(gshape) * es);
        assert forall|b: int| 0 <= b < out@.len() implies out@[b] == project(
            data@,
            parent_shape@,
            gstart,
            gshape,
            es as nat,
        )[b] by {}
        assert(out@ =~= project(data@, parent_shape@, gstart, gshape, es as nat));
    }
    out
}

/// The larger of two values.
pub open spec fn max_u64(a: u64, b: u64) -> u64 {
    if a > b {
        a
    } else {
        b
    }
}

/// The larger of two integers.
pub open spec fn max_i(a: int, b: int) -> int {
    if a > b {
        a
    } else {
        b
    }
}

/// The smaller of two integers.
pub open spec fn min_i(a: int, b: int) -> int {
    if a < b {
        a
    } else {
        b
    }
}

/// A zero extent along any axis makes the element count zero.
pub proof fn lemma_zero_extent(shape: Seq<u64>, i: int)
    requires
        0 <= i < shape.len(),
        shape[i] == 0,
    ensures
        num_elements(shape) == 0,
    decreases shape.len(),
{
    if i == shape.len() - 1 {
        assert(num_elements(shape.drop_last()) * 0nat == 0) by (nonlinear_arith);
    } else {
        lemma_zero_extent(shape.drop_last(), i);
        assert(0nat * (shape.last() as nat) == 0) by (nonlinear_arith);
    }
}

/// A prefix of a sequence of positive extents has an element count bounded
/// by that of the whole, and each prefix product extends the previous one.
pub proof fn lemma_prefix_product(shape: Seq<u64>, i: int)
    requires
        1 <= i <= shape.len(),
        all_positive(shape),
    ensures
        num_elements(shape.take(i)) == num_elements(shape.take(i - 1)) * (shape[i - 1] as nat),
        num_elements(shape.take(i)) <= num_elements(shape),
{
    assert(shape.take(i).drop_last() =~= shape.take(i - 1));
    assert(shape.take(i).last() == shape[i - 1]);
    assert(all_positive(shape.skip(i)));
    lemma_num_elements_pos(shape.skip(i));
    assert(shape.take(i) + shape.skip(i) =~= shape);
    lemma_num_elements_concat(shape.take(i), shape.skip(i));
    assert(num_elements(shape.take(i)) <= num_elements(shape.take(i)) * num_elements(
        shape.skip(i),
    )) by (nonlinear_arith)
        requires num_elements(shape.skip(i)) >= 1;
}

/// The row-major linear index of `coord` in an array of extents `shape`,
/// as a machine integer.
pub fn linear_index_u64(coord: &Vec<u64>, shape: &Vec<u64>) -> (r: u64)
    requires
        valid_coord(coord@, shape@),
        num_elements(shape@) <= u64::MAX,
    ensures
        r == linear_index(coord@, shape@),
        r < num_elements(shape@),
{
    proof {
        assert(all_positive(shape@));
        lemma_linear_index_bounds(coord@, shape@);
    }
    let n = coord.len();
    let mut acc: u64 = 0;
    for i in 0..n
        invariant
            n == coord@.len() == shape@.len(),
            valid_coord(coord@, shape@),
            all_positive(shape@),
            num_elements(shape@) <= u64::MAX,
            acc == linear_index(coord@.take(i as int), shape@.take(i as int)),
            acc < num_elements(shape@.take(i as int)),
    {
        proof {
            assert(coord@.take(i + 1) =~= coord@.take(i as int).push(coord@[i as int]));
            assert(shape@.take(i + 1) =~= shape@.take(i as int).push(shape@[i as int]));
            lemma_linear_index_push(
                coord@.take(i as int),
                shape@.take(i as int),
                coord@[i as int],
                shape@[i as int],
            );
            assert(valid_coord(coord@.take(i + 1), shape@.take(i + 1))) by {
                assert forall|k: int| 0 <= k < i + 1 implies #[trigger] coord@.take(i + 1)[k]
                    < shape@.take(i + 1)[k] by {
                    assert(coord@[k] < shape@[k]);
                }
            }
            lemma_linear_index_bounds(coord@.take(i + 1), shape@.take(i + 1));
            lemma_prefix_product(shape@, i + 1);
        }
        acc = acc * shape[i] + coord[i];
    }
    proof {
        assert(coord@.take(n as int) =~= coord@);
        assert(shape@.take(n as int) =~= shape@);
    }
    acc
}

/// The coordinate whose row-major linear index in an array of extents
/// `shape` is `e`.
pub fn coord_from_linear(e: u64, shape: &Vec<u64>) -> (r: Vec<u64>)
    requires
        e < num_elements(shape@),
    ensures
        r@ == coord_of(e as int, shape@),
        valid_coord(r@, shape@),
{
    proof {
        lemma_num_elements_pos(shape@);
        lemma_coord_of_roundtrip(e as int, shape@);
        assert(shape@.take(shape@.len() as int) =~= shape@);
        assert(coord_of(e as int, shape@) + Seq::<u64>::empty() =~= coord_of(e as int, shape@));
    }
    let n = shape.len();
    let mut rem: u64 = e;
    let mut acc: Vec<u64> = Vec::new();
    let mut i: usize = n;
    while i > 0
        invariant
            n == shape@.len(),
            i <= n,
            all_positive(shape@),
            coord_of(e as int, shape@) =~= coord_of(rem as int, shape@.take(i as int)) + acc@,
        decreases i,
    {
        let s = shape[i - 1];
        let digit = rem % s;
        proof {
            let pre = shape@.take(i as int);
            assert(pre.drop_last() =~= shape@.take(i - 1));
            assert(pre.last() == shape@[i - 1]);
            assert(coord_of(rem as int, pre) == coord_of(
                rem as int / s as int,
                shape@.take(i - 1),
            ).push((rem as int % s as int) as u64));
            assert(coord_of(rem as int / s as int, shape@.take(i - 1)).push(digit) + acc@
                =~= coord_of(rem as int / s as int, shape@.take(i - 1)) + (seq![digit] + acc@));
        }
        let ghost acc0 = acc@;
        acc.insert(0, digit);
        rem = rem / s;
        proof {
            assert(acc@ =~= seq![digit] + acc0);
        }
        i = i - 1;
    }
    proof {
        assert(shape@.take(0int) =~= Seq::<u64>::empty());
        assert(coord_of(rem as int, Seq::<u64>::empty()) + acc@ =~= acc@);
    }
    acc
}

/// The product of the extents, as a machine integer.
pub fn product_u64(shape: &Vec<u64>) -> (r: u64)
    requires
        num_elements(shape@) <= u64::MAX,
    ensures
        r == num_elements(shape@),
{
    let n = shape.len();
    for i in 0..n
        invariant
            n == shape@.len(),
            forall|k: int| 0 <= k < i ==> shape@[k] >= 1,
    {
        if shape[i] == 0 {
            proof {
                lemma_zero_extent(shape@, i as int);
            }
            return 0;
        }
    }
    assert(all_positive(shape@));
    let mut acc: u64 = 1;
    for i in 0..n
        invariant
            n == shape@.len(),
            num_elements(shape@) <= u64::MAX,
            all_positive(shape@),
            acc == num_elements(shape@.take(i as int)),
    {
        proof {
            lemma_prefix_product(shape@, i + 1);
        }
        acc = acc * shape[i];
    }
    proof {
        assert(shape@.take(n as int) =~= shape@);
    }
    acc
}

} // verus!
