use vstd::prelude::*;
use vstd::arithmetic::div_mod::{lemma_fundamental_div_mod, lemma_mod_bound};
use crate::util::faces::{point, Coord};

verus! {

/// Product of `sizes[d..]`; the empty product is 1.
pub open spec fn suffix_product(sizes: Seq<int>, d: int) -> int
    decreases sizes.len() - d,
{
    if d < 0 || d >= sizes.len() {
        1
    } else {
        sizes[d] * suffix_product(sizes, d + 1)
    }
}

/// Number of cells of a grid with the given size along each axis.
pub open spec fn volume(sizes: Seq<int>) -> int {
    suffix_product(sizes, 0)
}

/// As [`suffix_product`], but the last axis counts `size / 2 + 1` cells: the
/// number of complex coefficients a real-to-complex transform keeps there.
pub open spec fn complex_suffix_product(sizes: Seq<int>, d: int) -> int
    decreases sizes.len() - d,
{
    if d < 0 || d >= sizes.len() {
        1
    } else if d == sizes.len() - 1 {
        sizes[d] / 2 + 1
    } else {
        sizes[d] * complex_suffix_product(sizes, d + 1)
    }
}

/// Number of complex cells needed to hold the spectrum of a real grid.
pub open spec fn complex_volume(sizes: Seq<int>) -> int {
    complex_suffix_product(sizes, 0)
}

/// Row-major position of `offset[d..]` in a grid of `sizes[d..]`: the last
/// axis varies fastest.
pub open spec fn suffix_offset(offset: Seq<int>, sizes: Seq<int>, d: int) -> int
    decreases sizes.len() - d,
{
    if d < 0 || d >= sizes.len() {
        0
    } else {
        offset[d] * suffix_product(sizes, d + 1) + suffix_offset(offset, sizes, d + 1)
    }
}

/// Row-major position of `offset` in a grid of the given sizes.
pub open spec fn row_major(offset: Seq<int>, sizes: Seq<int>) -> int {
    suffix_offset(offset, sizes, 0)
}

/// Every axis holds at least one cell.
pub open spec fn positive(sizes: Seq<int>) -> bool {
    forall|d: int| 0 <= d < sizes.len() ==> #[trigger] sizes[d] >= 1
}

/// `offset` names a cell of the grid: one entry per axis, each in `0..size`.
pub open spec fn within(offset: Seq<int>, sizes: Seq<int>) -> bool {
    &&& offset.len() == sizes.len()
    &&& forall|d: int| 0 <= d < sizes.len() ==> 0 <= #[trigger] offset[d] < sizes[d]
}

/// A grid in which every axis holds a cell holds a cell.
pub proof fn lemma_suffix_product_positive(sizes: Seq<int>, d: int)
    requires
        positive(sizes),
    ensures
        1 <= suffix_product(sizes, d),
    decreases sizes.len() - d,
{
    if 0 <= d < sizes.len() {
        lemma_suffix_product_positive(sizes, d + 1);
        let tail = suffix_product(sizes, d + 1);
        let head = sizes[d];
        assert(head * tail >= 1) by (nonlinear_arith)
            requires
                head >= 1,
                tail >= 1,
        ;
    }
}

/// Dropping leading axes never enlarges a grid.
pub proof fn lemma_suffix_product_monotone(sizes: Seq<int>, a: int, b: int)
    requires
        positive(sizes),
        0 <= a <= b <= sizes.len(),
    ensures
        1 <= suffix_product(sizes, b) <= suffix_product(sizes, a),
    decreases b - a,
{
    lemma_suffix_product_positive(sizes, b);
    if a < b {
        lemma_suffix_product_monotone(sizes, a + 1, b);
        let tail = suffix_product(sizes, a + 1);
        let head = sizes[a];
        assert(head * tail >= tail) by (nonlinear_arith)
            requires
                head >= 1,
                tail >= 1,
        ;
    }
}

/// A grid that is no longer than another along any axis has no more cells.
pub proof fn lemma_suffix_product_le(small: Seq<int>, large: Seq<int>, d: int)
    requires
        small.len() == large.len(),
        forall|i: int| 0 <= i < small.len() ==> 1 <= #[trigger] small[i] <= large[i],
        0 <= d <= small.len(),
    ensures
        1 <= suffix_product(small, d) <= suffix_product(large, d),
    decreases small.len() - d,
{
    if d < small.len() {
        lemma_suffix_product_le(small, large, d + 1);
        let a = small[d];
        let b = large[d];
        let x = suffix_product(small, d + 1);
        let y = suffix_product(large, d + 1);
        assert(1 <= a <= b);
        assert(1 <= a * x <= b * y) by (nonlinear_arith)
            requires
                1 <= a <= b,
                1 <= x <= y,
        ;
    }
}

/// A spectrum never needs more cells than the real grid it comes from.
pub proof fn lemma_complex_suffix_product_bounds(sizes: Seq<int>, d: int)
    requires
        positive(sizes),
        0 <= d <= sizes.len(),
    ensures
        1 <= complex_suffix_product(sizes, d) <= suffix_product(sizes, d),
    decreases sizes.len() - d,
{
    if d < sizes.len() {
        lemma_complex_suffix_product_bounds(sizes, d + 1);
        if d == sizes.len() - 1 {
            assert(suffix_product(sizes, d + 1) == 1);
            assert(suffix_product(sizes, d) == sizes[d] * 1);
            assert(sizes[d] >= 1);
        } else {
            let head = sizes[d];
            let c = complex_suffix_product(sizes, d + 1);
            let r = suffix_product(sizes, d + 1);
            assert(1 <= head * c <= head * r) by (nonlinear_arith)
                requires
                    head >= 1,
                    1 <= c <= r,
            ;
        }
    }
}

/// The position of a cell of the grid is smaller than the number of cells.
pub proof fn lemma_suffix_offset_bounds(offset: Seq<int>, sizes: Seq<int>, d: int)
    requires
        within(offset, sizes),
        0 <= d <= sizes.len(),
    ensures
        0 <= suffix_offset(offset, sizes, d) < suffix_product(sizes, d),
    decreases sizes.len() - d,
{
    if d < sizes.len() {
        lemma_suffix_offset_bounds(offset, sizes, d + 1);
        let o = offset[d];
        let s = sizes[d];
        let rest = suffix_offset(offset, sizes, d + 1);
        let stride = suffix_product(sizes, d + 1);
        assert(0 <= o * stride + rest < s * stride) by (nonlinear_arith)
            requires
                0 <= o < s,
                0 <= rest < stride,
        ;
    }
}

/// The position of `offset[d..]` does not depend on the axes before `d`.
pub proof fn lemma_suffix_offset_agrees(a: Seq<int>, b: Seq<int>, sizes: Seq<int>, d: int)
    requires
        0 <= d,
        forall|e: int| d <= e < sizes.len() ==> a[e] == b[e],
    ensures
        suffix_offset(a, sizes, d) == suffix_offset(b, sizes, d),
    decreases sizes.len() - d,
{
    if d < sizes.len() {
        lemma_suffix_offset_agrees(a, b, sizes, d + 1);
    }
}

/// Two cells of a grid that agree before axis `d` and have the same position
/// from axis `d` on are the same cell.
pub proof fn lemma_suffix_offset_injective(a: Seq<int>, b: Seq<int>, sizes: Seq<int>, d: int)
    requires
        within(a, sizes),
        within(b, sizes),
        0 <= d <= sizes.len(),
        suffix_offset(a, sizes, d) == suffix_offset(b, sizes, d),
    ensures
        forall|e: int| d <= e < sizes.len() ==> a[e] == b[e],
    decreases sizes.len() - d,
{
    if d < sizes.len() {
        lemma_suffix_offset_bounds(a, sizes, d + 1);
        lemma_suffix_offset_bounds(b, sizes, d + 1);
        let stride = suffix_product(sizes, d + 1);
        let ra = suffix_offset(a, sizes, d + 1);
        let rb = suffix_offset(b, sizes, d + 1);
        let x = a[d];
        let y = b[d];
        assert(x == y) by (nonlinear_arith)
            requires
                x * stride + ra == y * stride + rb,
                0 <= ra < stride,
                0 <= rb < stride,
        ;
        assert(ra == rb) by (nonlinear_arith)
            requires
                x == y,
                x * stride + ra == y * stride + rb,
        ;
        lemma_suffix_offset_injective(a, b, sizes, d + 1);
    }
}

/// Row-major numbering gives different cells different positions.
pub proof fn lemma_row_major_injective(a: Seq<int>, b: Seq<int>, sizes: Seq<int>)
    requires
        within(a, sizes),
        within(b, sizes),
        row_major(a, sizes) == row_major(b, sizes),
    ensures
        a == b,
{
    lemma_suffix_offset_injective(a, b, sizes, 0);
    assert(a =~= b);
}

/// Number of real cells in a grid of the given size.
pub fn real_buffer_size<const DIMENSION: usize>(size: &Coord<DIMENSION>) -> (r: usize)
    requires
        positive(point(*size)),
        volume(point(*size)) <= usize::MAX,
    ensures
        r == volume(point(*size)),
{
    let ghost sizes = point(*size);
    let mut acc: usize = 1;
    let mut d: usize = DIMENSION;
    while d > 0
        invariant
            d <= DIMENSION,
            sizes == point(*size),
            positive(sizes),
            volume(sizes) <= usize::MAX,
            acc == suffix_product(sizes, d as int),
        decreases d,
    {
        d -= 1;
        proof {
            lemma_suffix_product_monotone(sizes, 0, d as int);
            assert(sizes[d as int] == size[d as int]);
            assert(sizes[d as int] >= 1);
            assert(suffix_product(sizes, d as int) == sizes[d as int] * acc);
        }
        acc = (size[d] as usize) * acc;
    }
    acc
}

/// Whether a grid of the given size has few enough cells to be counted in a
/// `usize`.
pub fn fits_real_buffer<const DIMENSION: usize>(size: &Coord<DIMENSION>) -> (r: bool)
    requires
        positive(point(*size)),
    ensures
        r == (volume(point(*size)) <= usize::MAX),
{
    let ghost sizes = point(*size);
    let mut acc: usize = 1;
    let mut d: usize = DIMENSION;
    while d > 0
        invariant
            d <= DIMENSION,
            sizes == point(*size),
            positive(sizes),
            acc == suffix_product(sizes, d as int),
        decreases d,
    {
        d -= 1;
        proof {
            assert(sizes[d as int] == size[d as int]);
            assert(sizes[d as int] >= 1);
            assert(suffix_product(sizes, d as int) == sizes[d as int] * acc);
        }
        match (size[d] as usize).checked_mul(acc) {
            Some(next) => {
                acc = next;
            },
            None => {
                proof {
                    lemma_suffix_product_monotone(sizes, 0, d as int);
                }
                return false;
            },
        }
    }
    true
}

/// Number of complex cells needed for the spectrum of a real grid of the
/// given size: the last axis is cut to `size / 2 + 1`.
pub fn complex_buffer_size<const DIMENSION: usize>(size: &Coord<DIMENSION>) -> (r: usize)
    requires
        DIMENSION >= 1,
        positive(point(*size)),
        complex_volume(point(*size)) <= usize::MAX,
    ensures
        r == complex_volume(point(*size)),
{
    let ghost sizes = point(*size);
    let mut d: usize = DIMENSION - 1;
    proof {
        assert(sizes[d as int] == size[d as int]);
        assert(sizes[d as int] >= 1);
        lemma_complex_suffix_product_bounds(sizes, 0);
        lemma_complex_suffix_product_chain(sizes, 0, d as int);
    }
    let mut acc: usize = (size[d] / 2 + 1) as usize;
    while d > 0
        invariant
            d < DIMENSION,
            sizes == point(*size),
            positive(sizes),
            complex_volume(sizes) <= usize::MAX,
            acc == complex_suffix_product(sizes, d as int),
        decreases d,
    {
        d -= 1;
        proof {
            lemma_complex_suffix_product_chain(sizes, 0, d as int);
            assert(sizes[d as int] == size[d as int]);
            assert(sizes[d as int] >= 1);
            assert(complex_suffix_product(sizes, d as int) == sizes[d as int] * acc);
        }
        acc = (size[d] as usize) * acc;
    }
    acc
}

/// Dropping leading axes never enlarges a spectrum.
pub proof fn lemma_complex_suffix_product_chain(sizes: Seq<int>, a: int, b: int)
    requires
        positive(sizes),
        0 <= a <= b <= sizes.len(),
    ensures
        1 <= complex_suffix_product(sizes, b) <= complex_suffix_product(sizes, a),
    decreases b - a,
{
    lemma_complex_suffix_product_bounds(sizes, b);
    if a < b {
        lemma_complex_suffix_product_chain(sizes, a + 1, b);
        if a < sizes.len() - 1 {
            let tail = complex_suffix_product(sizes, a + 1);
            let head = sizes[a];
            assert(head * tail >= tail) by (nonlinear_arith)
                requires
                    head >= 1,
                    tail >= 1,
            ;
        }
    }
}

/// Row-major position of `coord` in a grid of the given size whose first cell
/// is the origin.
pub fn coord_to_linear<const DIMENSION: usize>(
    coord: &Coord<DIMENSION>,
    size: &Coord<DIMENSION>,
) -> (r: usize)
    requires
        within(point(*coord), point(*size)),
        volume(point(*size)) <= usize::MAX,
    ensures
        r == row_major(point(*coord), point(*size)),
        r < volume(point(*size)),
{
    let ghost sizes = point(*size);
    let ghost offset = point(*coord);
    let mut acc: usize = 0;
    let mut stride: usize = 1;
    let mut d: usize = DIMENSION;
    proof {
        lemma_suffix_offset_bounds(offset, sizes, 0);
    }
    while d > 0
        invariant
            d <= DIMENSION,
            sizes == point(*size),
            offset == point(*coord),
            within(offset, sizes),
            volume(sizes) <= usize::MAX,
            stride == suffix_product(sizes, d as int),
            acc == suffix_offset(offset, sizes, d as int),
        decreases d,
    {
        d -= 1;
        proof {
            assert(positive(sizes)) by {
                assert forall|e: int| 0 <= e < sizes.len() implies #[trigger] sizes[e] >= 1 by {
                    assert(0 <= offset[e] < sizes[e]);
                }
            }
            lemma_suffix_product_monotone(sizes, 0, d as int);
            lemma_suffix_offset_bounds(offset, sizes, d as int);
            assert(sizes[d as int] == size[d as int]);
            assert(offset[d as int] == coord[d as int]);
            assert(0 <= offset[d as int] < sizes[d as int]);
            assert(suffix_product(sizes, d as int) == sizes[d as int] * stride);
            assert(suffix_offset(offset, sizes, d as int) == offset[d as int] * stride + acc);
        }
        acc = (coord[d] as usize) * stride + acc;
        stride = (size[d] as usize) * stride;
    }
    acc
}

/// The cell at row-major position `index` of a grid of the given size whose
/// first cell is the origin.
pub fn linear_to_coord<const DIMENSION: usize>(index: usize, size: &Coord<DIMENSION>) -> (r:
    Coord<DIMENSION>)
    requires
        positive(point(*size)),
        index < volume(point(*size)),
    ensures
        within(point(r), point(*size)),
        row_major(point(r), point(*size)) == index,
{
    let ghost sizes = point(*size);
    let mut r: Coord<DIMENSION> = [0i32; DIMENSION];
    let mut rest: usize = index;
    let mut d: usize = DIMENSION;
    while d > 0
        invariant
            d <= DIMENSION,
            sizes == point(*size),
            positive(sizes),
            index < volume(sizes),
            forall|e: int| d <= e < DIMENSION ==> 0 <= #[trigger] r[e] < sizes[e],
            index == rest * suffix_product(sizes, d as int) + suffix_offset(
                point(r),
                sizes,
                d as int,
            ),
        decreases d,
    {
        let ghost before = point(r);
        let ghost old_rest = rest as int;
        d -= 1;
        proof {
            assert(sizes[d as int] == size[d as int]);
            assert(sizes[d as int] >= 1);
        }
        let s: usize = size[d] as usize;
        let q: usize = rest % s;
        proof {
            lemma_fundamental_div_mod(old_rest, s as int);
            lemma_mod_bound(old_rest, s as int);
        }
        rest = rest / s;
        r[d] = q as i32;
        proof {
            let after = point(r);
            let stride = suffix_product(sizes, d + 1);
            assert forall|e: int| d + 1 <= e < sizes.len() implies before[e] == after[e] by {}
            lemma_suffix_offset_agrees(before, after, sizes, d + 1);
            let tail = suffix_offset(after, sizes, d + 1);
            assert(after[d as int] == q);
            assert(suffix_product(sizes, d as int) == s * stride);
            assert(suffix_offset(after, sizes, d as int) == q * stride + tail);
            assert(rest * (s * stride) + (q * stride + tail) == old_rest * stride + tail)
                by (nonlinear_arith)
                requires
                    old_rest == s * rest + q,
            ;
        }
    }
    proof {
        lemma_suffix_offset_bounds_of_filled(point(r), sizes);
        let total = volume(sizes);
        let pos = row_major(point(r), sizes);
        assert(rest == 0) by (nonlinear_arith)
            requires
                index == rest * total + pos,
                0 <= pos,
                index < total,
                0 <= rest,
        ;
    }
    r
}

/// As [`lemma_suffix_offset_bounds`] at axis 0, from the entry-wise bounds.
proof fn lemma_suffix_offset_bounds_of_filled(offset: Seq<int>, sizes: Seq<int>)
    requires
        offset.len() == sizes.len(),
        forall|e: int| 0 <= e < sizes.len() ==> 0 <= #[trigger] offset[e] < sizes[e],
    ensures
        within(offset, sizes),
        0 <= row_major(offset, sizes) < volume(sizes),
{
    lemma_suffix_offset_bounds(offset, sizes, 0);
}

} // verus!
