use vstd::prelude::*;
use crate::util::faces::{faces, point, Bounds, Coord, Faces};
use crate::util::indexing;
use crate::util::indexing::{positive, within};

verus! {

/// Axis-aligned box of lattice points, inclusive of both corners.
#[derive(Hash, Debug, Copy, Clone, Eq, PartialEq)]
pub struct AABB<const DIMENSION: usize> {
    pub bounds: Bounds<DIMENSION>,
}

impl<const DIMENSION: usize> View for AABB<DIMENSION> {
    type V = Faces;

    open spec fn view(&self) -> Faces {
        faces(self.bounds)
    }
}

impl<const DIMENSION: usize> AABB<DIMENSION> {
    /// Wrap raw bounds without checking them.
    pub fn new(bounds: Bounds<DIMENSION>) -> (r: Self)
        ensures
            r.bounds == bounds,
    {
        AABB { bounds }
    }

    /// The box with the given corners.
    pub fn from_mm(min: Coord<DIMENSION>, max: Coord<DIMENSION>) -> (r: Self)
        requires
            forall|d: int| 0 <= d < DIMENSION ==> min[d] <= max[d],
        ensures
            r@.lo == point(min),
            r@.hi == point(max),
            r@.valid(),
    {
        let mut bounds: Bounds<DIMENSION> = [[0i32; 2]; DIMENSION];
        let mut d: usize = 0;
        while d < DIMENSION
            invariant
                d <= DIMENSION,
                forall|e: int| 0 <= e < d ==> bounds[e][0] == min[e] && bounds[e][1] == max[e],
            decreases DIMENSION - d,
        {
            bounds[d] = [min[d], max[d]];
            d += 1;
        }
        let r = AABB { bounds };
        assert(r@.lo =~= point(min));
        assert(r@.hi =~= point(max));
        r
    }

    /// Whether no axis has its lower corner above its upper corner.
    pub fn check_validity(&self) -> (r: bool)
        ensures
            r == self@.valid(),
    {
        let mut d: usize = 0;
        while d < DIMENSION
            invariant
                d <= DIMENSION,
                forall|e: int| 0 <= e < d ==> self@.lo[e] <= self@.hi[e],
            decreases DIMENSION - d,
        {
            if self.bounds[d][0] > self.bounds[d][1] {
                assert(self@.lo[d as int] > self@.hi[d as int]);
                return false;
            }
            d += 1;
        }
        true
    }

    /// Whether both boxes have the same corners.
    pub fn same_bounds(&self, other: &Self) -> (r: bool)
        ensures
            r == (self@ == other@),
    {
        let mut d: usize = 0;
        while d < DIMENSION
            invariant
                d <= DIMENSION,
                forall|e: int|
                    0 <= e < d ==> self@.lo[e] == other@.lo[e] && self@.hi[e] == other@.hi[e],
            decreases DIMENSION - d,
        {
            if self.bounds[d][0] != other.bounds[d][0] || self.bounds[d][1] != other.bounds[d][1] {
                assert(self@.lo[d as int] != other@.lo[d as int] || self@.hi[d as int]
                    != other@.hi[d as int]);
                return false;
            }
            d += 1;
        }
        assert(self@.lo =~= other@.lo);
        assert(self@.hi =~= other@.hi);
        true
    }

    /// Whether `coord` lies in the box.
    pub fn contains(&self, coord: &Coord<DIMENSION>) -> (r: bool)
        ensures
            r == self@.contains(point(*coord)),
    {
        let ghost p = point(*coord);
        let mut d: usize = 0;
        while d < DIMENSION
            invariant
                d <= DIMENSION,
                p == point(*coord),
                forall|e: int| 0 <= e < d ==> self@.lo[e] <= #[trigger] p[e] <= self@.hi[e],
            decreases DIMENSION - d,
        {
            if coord[d] < self.bounds[d][0] || coord[d] > self.bounds[d][1] {
                assert(!(self@.lo[d as int] <= p[d as int] <= self@.hi[d as int]));
                return false;
            }
            d += 1;
        }
        true
    }

    /// Whether every face of `other` lies on or inside the matching face of
    /// this box.
    pub fn contains_aabb(&self, other: &Self) -> (r: bool)
        ensures
            r == self@.encloses(other@),
    {
        let mut d: usize = 0;
        while d < DIMENSION
            invariant
                d <= DIMENSION,
                forall|e: int|
                    0 <= e < d ==> self@.lo[e] <= other@.lo[e] && other@.hi[e] <= self@.hi[e],
            decreases DIMENSION - d,
        {
            if other.bounds[d][0] < self.bounds[d][0] || other.bounds[d][1] > self.bounds[d][1] {
                assert(!(self@.lo[d as int] <= other@.lo[d as int] && other@.hi[d as int]
                    <= self@.hi[d as int]));
                return false;
            }
            d += 1;
        }
        true
    }

    /// Lower corner.
    pub fn min(&self) -> (r: Coord<DIMENSION>)
        ensures
            point(r) == self@.lo,
    {
        let mut r: Coord<DIMENSION> = [0i32; DIMENSION];
        let mut d: usize = 0;
        while d < DIMENSION
            invariant
                d <= DIMENSION,
                forall|e: int| 0 <= e < d ==> r[e] == self@.lo[e],
            decreases DIMENSION - d,
        {
            r[d] = self.bounds[d][0];
            d += 1;
        }
        assert(point(r) =~= self@.lo);
        r
    }

    /// Upper corner.
    pub fn max(&self) -> (r: Coord<DIMENSION>)
        ensures
            point(r) == self@.hi,
    {
        let mut r: Coord<DIMENSION> = [0i32; DIMENSION];
        let mut d: usize = 0;
        while d < DIMENSION
            invariant
                d <= DIMENSION,
                forall|e: int| 0 <= e < d ==> r[e] == self@.hi[e],
            decreases DIMENSION - d,
        {
            r[d] = self.bounds[d][1];
            d += 1;
        }
        assert(point(r) =~= self@.hi);
        r
    }

    /// Move every face by the matching entry of `diff`.
    pub fn add_bounds_diff(&self, diff: Bounds<DIMENSION>) -> (r: Self)
        requires
            self@.plus(faces(diff)).fits_i32(),
        ensures
            r@ == self@.plus(faces(diff)),
    {
        let ghost goal = self@.plus(faces(diff));
        let mut bounds: Bounds<DIMENSION> = [[0i32; 2]; DIMENSION];
        let mut d: usize = 0;
        while d < DIMENSION
            invariant
                d <= DIMENSION,
                goal == self@.plus(faces(diff)),
                goal.fits_i32(),
                forall|e: int| 0 <= e < d ==> bounds[e][0] == goal.lo[e] && bounds[e][1] == goal.hi[e],
            decreases DIMENSION - d,
        {
            assert(goal.lo[d as int] == self.bounds[d as int][0] + diff[d as int][0]);
            assert(goal.hi[d as int] == self.bounds[d as int][1] + diff[d as int][1]);
            bounds[d] = [self.bounds[d][0] + diff[d][0], self.bounds[d][1] + diff[d][1]];
            d += 1;
        }
        let r = AABB { bounds };
        assert(r@.lo =~= goal.lo);
        assert(r@.hi =~= goal.hi);
        r
    }

    /// Number of lattice points along each axis: `max - min + 1`.
    pub fn exclusive_bounds(&self) -> (r: Coord<DIMENSION>)
        requires
            forall|d: int| 0 <= d < DIMENSION ==> i32::MIN <= #[trigger] self@.size(d) <= i32::MAX,
        ensures
            point(r) == self@.sizes(),
    {
        let mut r: Coord<DIMENSION> = [0i32; DIMENSION];
        let mut d: usize = 0;
        while d < DIMENSION
            invariant
                d <= DIMENSION,
                forall|e: int|
                    0 <= e < DIMENSION ==> i32::MIN <= #[trigger] self@.size(e) <= i32::MAX,
                forall|e: int| 0 <= e < d ==> r[e] == self@.size(e),
            decreases DIMENSION - d,
        {
            assert(self@.size(d as int) == self.bounds[d as int][1] - self.bounds[d as int][0] + 1);
            r[d] = (self.bounds[d][1] as i64 - self.bounds[d][0] as i64 + 1) as i32;
            d += 1;
        }
        assert(point(r) =~= self@.sizes());
        r
    }

    /// Whether a buffer can hold one cell for each point of the box: the box
    /// is valid, no axis is longer than `i32::MAX` and the number of points
    /// fits in a `usize`.
    pub fn is_storable(&self) -> (r: bool)
        ensures
            r == self@.storable(),
    {
        if !self.check_validity() {
            return false;
        }
        let mut d: usize = 0;
        while d < DIMENSION
            invariant
                d <= DIMENSION,
                self@.valid(),
                forall|e: int| 0 <= e < d ==> #[trigger] self@.size(e) <= i32::MAX,
            decreases DIMENSION - d,
        {
            assert(self@.size(d as int) == self.bounds[d as int][1] - self.bounds[d as int][0] + 1);
            if self.bounds[d][1] as i64 - self.bounds[d][0] as i64 + 1 > i32::MAX as i64 {
                return false;
            }
            d += 1;
        }
        proof {
            self.lemma_sizes_positive();
        }
        let size = self.exclusive_bounds();
        indexing::fits_real_buffer(&size)
    }

    /// Number of lattice points in the box.
    pub fn buffer_size(&self) -> (r: usize)
        requires
            self@.storable(),
        ensures
            r == self@.volume(),
    {
        proof {
            self.lemma_sizes_positive();
        }
        let size = self.exclusive_bounds();
        indexing::real_buffer_size(&size)
    }

    /// Number of complex cells that hold the spectrum of a real field on the
    /// box: the last axis counts `size / 2 + 1` cells.
    pub fn complex_buffer_size(&self) -> (r: usize)
        requires
            DIMENSION >= 1,
            self@.valid(),
            forall|d: int| 0 <= d < DIMENSION ==> #[trigger] self@.size(d) <= i32::MAX,
            self@.complex_volume() <= usize::MAX,
        ensures
            r == self@.complex_volume(),
    {
        proof {
            self.lemma_sizes_positive();
        }
        let size = self.exclusive_bounds();
        indexing::complex_buffer_size(&size)
    }

    /// Row-major position of `coord` among the points of the box.
    pub fn coord_to_linear(&self, coord: &Coord<DIMENSION>) -> (r: usize)
        requires
            self@.contains(point(*coord)),
            forall|d: int| 0 <= d < DIMENSION ==> #[trigger] self@.size(d) <= i32::MAX,
            self@.volume() <= usize::MAX,
        ensures
            r == self@.linear_index(point(*coord)),
            r < self@.volume(),
    {
        let ghost p = point(*coord);
        proof {
            assert forall|d: int| 0 <= d < DIMENSION implies self@.lo[d] <= self@.hi[d] by {
                assert(self@.lo[d] <= p[d] <= self@.hi[d]);
            }
            self.lemma_sizes_positive();
        }
        let size = self.exclusive_bounds();
        let mut offset: Coord<DIMENSION> = [0i32; DIMENSION];
        let mut d: usize = 0;
        while d < DIMENSION
            invariant
                d <= DIMENSION,
                p == point(*coord),
                self@.contains(p),
                forall|e: int| 0 <= e < DIMENSION ==> #[trigger] self@.size(e) <= i32::MAX,
                forall|e: int| 0 <= e < d ==> offset[e] == p[e] - self@.lo[e],
            decreases DIMENSION - d,
        {
            assert(self@.lo[d as int] <= p[d as int] <= self@.hi[d as int]);
            assert(self@.size(d as int) <= i32::MAX);
            offset[d] = coord[d] - self.bounds[d][0];
            d += 1;
        }
        proof {
            assert(point(offset) =~= self@.offset_of(p));
            assert forall|e: int| 0 <= e < DIMENSION implies 0 <= #[trigger] point(offset)[e]
                < point(size)[e] by {
                assert(self@.lo[e] <= p[e] <= self@.hi[e]);
            }
        }
        indexing::coord_to_linear(&offset, &size)
    }

    /// The point of the box at row-major position `index`.
    pub fn linear_to_coord(&self, index: usize) -> (r: Coord<DIMENSION>)
        requires
            self@.valid(),
            forall|d: int| 0 <= d < DIMENSION ==> #[trigger] self@.size(d) <= i32::MAX,
            index < self@.volume(),
        ensures
            self@.contains(point(r)),
            self@.linear_index(point(r)) == index,
    {
        proof {
            self.lemma_sizes_positive();
        }
        let size = self.exclusive_bounds();
        let offset = indexing::linear_to_coord(index, &size);
        let mut r: Coord<DIMENSION> = [0i32; DIMENSION];
        let mut d: usize = 0;
        while d < DIMENSION
            invariant
                d <= DIMENSION,
                point(size) == self@.sizes(),
                within(point(offset), point(size)),
                forall|e: int| 0 <= e < d ==> r[e] == offset[e] + self@.lo[e],
            decreases DIMENSION - d,
        {
            assert(0 <= point(offset)[d as int] < point(size)[d as int]);
            assert(point(size)[d as int] == self@.size(d as int));
            r[d] = offset[d] + self.bounds[d][0];
            d += 1;
        }
        proof {
            assert(self@.offset_of(point(r)) =~= point(offset));
            assert forall|e: int| 0 <= e < DIMENSION implies self@.lo[e] <= #[trigger] point(r)[e]
                <= self@.hi[e] by {
                assert(0 <= point(offset)[e] < point(size)[e]);
                assert(point(size)[e] == self@.size(e));
            }
        }
        r
    }

    /// Carry `coord` into the box as if the box repeated on every axis.
    /// Meant for coordinates no more than one box away.
    pub fn periodic_coord(&self, coord: &Coord<DIMENSION>) -> (r: Coord<DIMENSION>)
        requires
            forall|d: int|
                0 <= d < DIMENSION ==> i32::MIN <= #[trigger] self@.wrap(d, point(*coord)[d])
                    <= i32::MAX,
        ensures
            point(r) == self@.periodic_point(point(*coord)),
    {
        let ghost p = point(*coord);
        let mut r: Coord<DIMENSION> = [0i32; DIMENSION];
        let mut d: usize = 0;
        while d < DIMENSION
            invariant
                d <= DIMENSION,
                p == point(*coord),
                forall|e: int|
                    0 <= e < DIMENSION ==> i32::MIN <= #[trigger] self@.wrap(e, p[e]) <= i32::MAX,
                forall|e: int| 0 <= e < d ==> r[e] == self@.wrap(e, p[e]),
            decreases DIMENSION - d,
        {
            let raw: i64 = coord[d] as i64;
            let lo: i64 = self.bounds[d][0] as i64;
            let hi: i64 = self.bounds[d][1] as i64;
            assert(i32::MIN <= self@.wrap(d as int, p[d as int]) <= i32::MAX);
            let wrapped: i64 = if raw < lo {
                hi + 1 + raw
            } else if raw > hi {
                lo + (raw - hi - 1)
            } else {
                raw
            };
            r[d] = wrapped as i32;
            d += 1;
        }
        assert(point(r) =~= self@.periodic_point(p));
        r
    }

    /// Every point of the box, in row-major order.
    pub fn coord_iter(&self) -> (r: Vec<Coord<DIMENSION>>)
        requires
            self@.storable(),
        ensures
            r.len() == self@.volume(),
            forall|i: int|
                0 <= i < r.len() ==> self@.contains(point(#[trigger] r[i])) && self@.linear_index(
                    point(r[i]),
                ) == i,
    {
        let n = self.buffer_size();
        let mut r: Vec<Coord<DIMENSION>> = Vec::new();
        let mut i: usize = 0;
        while i < n
            invariant
                i <= n,
                n == self@.volume(),
                self@.valid(),
                forall|d: int| 0 <= d < DIMENSION ==> #[trigger] self@.size(d) <= i32::MAX,
                r.len() == i,
                forall|j: int|
                    0 <= j < i ==> self@.contains(point(#[trigger] r[j])) && self@.linear_index(
                        point(r[j]),
                    ) == j,
            decreases n - i,
        {
            let c = self.linear_to_coord(i);
            r.push(c);
            i += 1;
        }
        r
    }

    /// Split what is left of the box around `center` into two slabs per axis.
    /// Axis by axis, the part below `center` and the part above it are cut
    /// off, and the box is narrowed to the extent of `center` on that axis
    /// before the next axis is treated.
    pub fn decomposition(&self, center: &AABB<DIMENSION>) -> (r: [[AABB<DIMENSION>; 2]; DIMENSION])
        requires
            forall|d: int| 0 <= d < DIMENSION ==> i32::MIN < #[trigger] center@.lo[d],
            forall|d: int| 0 <= d < DIMENSION ==> #[trigger] center@.hi[d] < i32::MAX,
        ensures
            forall|d: int|
                0 <= d < DIMENSION ==> (#[trigger] r[d])[0]@ == self@.slab(center@, d, false)
                    && r[d][1]@ == self@.slab(center@, d, true),
    {
        let mut r: [[AABB<DIMENSION>; 2]; DIMENSION] = [[*self; 2]; DIMENSION];
        let mut remaining: AABB<DIMENSION> = *self;
        let mut d: usize = 0;
        while d < DIMENSION
            invariant
                d <= DIMENSION,
                forall|e: int| 0 <= e < DIMENSION ==> i32::MIN < #[trigger] center@.lo[e],
                forall|e: int| 0 <= e < DIMENSION ==> #[trigger] center@.hi[e] < i32::MAX,
                forall|e: int|
                    0 <= e < d ==> remaining@.lo[e] == center@.lo[e] && remaining@.hi[e]
                        == center@.hi[e],
                forall|e: int|
                    d <= e < DIMENSION ==> remaining@.lo[e] == self@.lo[e] && remaining@.hi[e]
                        == self@.hi[e],
                forall|e: int|
                    0 <= e < d ==> (#[trigger] r[e])[0]@ == self@.slab(center@, e, false)
                        && r[e][1]@ == self@.slab(center@, e, true),
            decreases DIMENSION - d,
        {
            assert(i32::MIN < center@.lo[d as int]);
            assert(center@.hi[d as int] < i32::MAX);
            let mut below = remaining;
            below.bounds[d] = [remaining.bounds[d][0], center.bounds[d][0] - 1];
            let mut above = remaining;
            above.bounds[d] = [center.bounds[d][1] + 1, remaining.bounds[d][1]];
            proof {
                assert(below@.lo =~= self@.slab(center@, d as int, false).lo);
                assert(below@.hi =~= self@.slab(center@, d as int, false).hi);
                assert(above@.lo =~= self@.slab(center@, d as int, true).lo);
                assert(above@.hi =~= self@.slab(center@, d as int, true).hi);
            }
            r[d] = [below, above];
            remaining.bounds[d] = [center.bounds[d][0], center.bounds[d][1]];
            d += 1;
        }
        r
    }

    /// A valid box has at least one point along every axis.
    proof fn lemma_sizes_positive(&self)
        requires
            self@.valid(),
        ensures
            positive(self@.sizes()),
            forall|d: int| 0 <= d < DIMENSION ==> 1 <= #[trigger] self@.size(d),
    {
        assert forall|d: int| 0 <= d < DIMENSION implies 1 <= #[trigger] self@.size(d) by {
            assert(self@.lo[d] <= self@.hi[d]);
        }
        assert forall|d: int| 0 <= d < self@.sizes().len() implies #[trigger] self@.sizes()[d]
            >= 1 by {
            assert(self@.size(d) >= 1);
        }
    }
}

} // verus!
