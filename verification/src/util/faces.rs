use vstd::prelude::*;
use crate::util::indexing::{
    complex_volume, lemma_row_major_injective, lemma_suffix_offset_bounds,
    lemma_suffix_product_le, row_major, volume, within,
};

verus! {

/// A grid coordinate: one integer per axis.
pub type Coord<const DIMENSION: usize> = [i32; DIMENSION];

/// One row per axis; column 0 belongs to the lower face of that axis and
/// column 1 to the upper face.  A box stores its corners this way, and so do
/// per-face quantities such as stencil slopes and sloped-face masks.
pub type Bounds<const DIMENSION: usize> = [[i32; 2]; DIMENSION];

/// The mathematical content of a [`Bounds`] matrix: one unbounded integer per
/// face, the lower faces in `lo` and the upper faces in `hi`.
pub struct Faces {
    pub lo: Seq<int>,
    pub hi: Seq<int>,
}

/// The faces stored in `b`.
pub open spec fn faces<const DIMENSION: usize>(b: Bounds<DIMENSION>) -> Faces {
    Faces {
        lo: Seq::new(DIMENSION as nat, |d: int| b[d][0] as int),
        hi: Seq::new(DIMENSION as nat, |d: int| b[d][1] as int),
    }
}

/// The point of the integer lattice that `c` names.
pub open spec fn point<const DIMENSION: usize>(c: Coord<DIMENSION>) -> Seq<int> {
    Seq::new(DIMENSION as nat, |d: int| c[d] as int)
}

impl Faces {
    /// Both columns have `n` rows.
    pub open spec fn shaped(self, n: nat) -> bool {
        self.lo.len() == n && self.hi.len() == n
    }

    /// Every entry can be stored in an `i32`.
    pub open spec fn fits_i32(self) -> bool {
        &&& forall|d: int| 0 <= d < self.lo.len() ==> i32::MIN <= #[trigger] self.lo[d] <= i32::MAX
        &&& forall|d: int| 0 <= d < self.hi.len() ==> i32::MIN <= #[trigger] self.hi[d] <= i32::MAX
    }

    /// Read as a box: no axis has its lower face above its upper face.
    pub open spec fn valid(self) -> bool {
        forall|d: int| 0 <= d < self.lo.len() ==> self.lo[d] <= self.hi[d]
    }

    /// Read as a box: the number of lattice points along axis `d`.
    pub open spec fn size(self, d: int) -> int {
        self.hi[d] - self.lo[d] + 1
    }

    /// Read as a box: `p` lies between the two faces on every axis.
    pub open spec fn contains(self, p: Seq<int>) -> bool {
        &&& p.len() == self.lo.len()
        &&& forall|d: int| 0 <= d < self.lo.len() ==> self.lo[d] <= #[trigger] p[d] <= self.hi[d]
    }

    /// Read as a box: the set of lattice points inside.
    pub open spec fn points(self) -> Set<Seq<int>> {
        Set::new(|p: Seq<int>| self.contains(p))
    }

    /// Face-wise containment: every face of `inner` lies on or inside the
    /// matching face of `self`.
    pub open spec fn encloses(self, inner: Faces) -> bool {
        &&& forall|d: int| 0 <= d < self.lo.len() ==> self.lo[d] <= #[trigger] inner.lo[d]
        &&& forall|d: int| 0 <= d < self.hi.len() ==> #[trigger] inner.hi[d] <= self.hi[d]
    }

    /// Entry-wise sum.
    pub open spec fn plus(self, diff: Faces) -> Faces {
        Faces {
            lo: Seq::new(self.lo.len(), |d: int| self.lo[d] + diff.lo[d]),
            hi: Seq::new(self.hi.len(), |d: int| self.hi[d] + diff.hi[d]),
        }
    }

    /// Entry-wise product.
    pub open spec fn times(self, other: Faces) -> Faces {
        Faces {
            lo: Seq::new(self.lo.len(), |d: int| self.lo[d] * other.lo[d]),
            hi: Seq::new(self.hi.len(), |d: int| self.hi[d] * other.hi[d]),
        }
    }

    /// Read as a box: every face moved outward by `steps` times the matching
    /// entry of `per_step`.  A lower face moves down, an upper face moves up.
    pub open spec fn grown(self, per_step: Faces, steps: int) -> Faces {
        Faces {
            lo: Seq::new(self.lo.len(), |d: int| self.lo[d] - steps * per_step.lo[d]),
            hi: Seq::new(self.hi.len(), |d: int| self.hi[d] + steps * per_step.hi[d]),
        }
    }

    /// Read as a box: every face moved inward by `steps` times the matching
    /// entry of `per_step`.
    pub open spec fn shrunk(self, per_step: Faces, steps: int) -> Faces {
        Faces {
            lo: Seq::new(self.lo.len(), |d: int| self.lo[d] + steps * per_step.lo[d]),
            hi: Seq::new(self.hi.len(), |d: int| self.hi[d] - steps * per_step.hi[d]),
        }
    }

    /// Read as a box: the number of lattice points along each axis.
    pub open spec fn sizes(self) -> Seq<int> {
        Seq::new(self.lo.len(), |d: int| self.size(d))
    }

    /// Read as a box: the number of lattice points inside.
    pub open spec fn volume(self) -> int {
        volume(self.sizes())
    }

    /// Read as a box: the number of complex cells that hold its spectrum.
    pub open spec fn complex_volume(self) -> int {
        complex_volume(self.sizes())
    }

    /// Read as a box: it holds a point, no axis is longer than `i32::MAX`
    /// and its points can be counted in a `usize`, so a buffer can hold one
    /// cell for each.
    pub open spec fn storable(self) -> bool {
        &&& self.valid()
        &&& forall|d: int| 0 <= d < self.lo.len() ==> #[trigger] self.size(d) <= i32::MAX
        &&& self.volume() <= usize::MAX
    }

    /// Read as a box: `p` measured from the lower corner.
    pub open spec fn offset_of(self, p: Seq<int>) -> Seq<int> {
        Seq::new(self.lo.len(), |d: int| p[d] - self.lo[d])
    }

    /// Read as a box: the row-major position of `p` among its points, the last
    /// axis varying fastest.
    pub open spec fn linear_index(self, p: Seq<int>) -> int {
        row_major(self.offset_of(p), self.sizes())
    }

    /// Read as a box: `x` carried across axis `d` as if the box repeated.  A
    /// value below the lower face becomes `hi + 1 + x`, one above the upper
    /// face becomes `lo + (x - hi - 1)`, and one between them stays.
    pub open spec fn wrap(self, d: int, x: int) -> int {
        if x < self.lo[d] {
            self.hi[d] + 1 + x
        } else if x > self.hi[d] {
            self.lo[d] + (x - self.hi[d] - 1)
        } else {
            x
        }
    }

    /// Read as a box: `p` wrapped on every axis.
    pub open spec fn periodic_point(self, p: Seq<int>) -> Seq<int> {
        Seq::new(self.lo.len(), |d: int| self.wrap(d, p[d]))
    }

    /// Read as a box: the slab that peeling axis `d` leaves on one side of
    /// `center`.  Axes before `d` are already cut down to `center`; along `d`
    /// the slab runs from the outer face of `self` up to, but not into,
    /// `center`; axes after `d` keep the full extent of `self`.
    pub open spec fn slab(self, center: Faces, d: int, upper: bool) -> Faces {
        Faces {
            lo: Seq::new(
                self.lo.len(),
                |e: int|
                    if e < d {
                        center.lo[e]
                    } else if e == d && upper {
                        center.hi[e] + 1
                    } else {
                        self.lo[e]
                    },
            ),
            hi: Seq::new(
                self.hi.len(),
                |e: int|
                    if e < d {
                        center.hi[e]
                    } else if e == d && !upper {
                        center.lo[e] - 1
                    } else {
                        self.hi[e]
                    },
            ),
        }
    }

    /// Read as a box: the points that lie in at least one of the slabs cut
    /// around `center`.
    pub open spec fn slab_points(self, center: Faces) -> Set<Seq<int>> {
        Set::new(
            |p: Seq<int>|
                exists|d: int, upper: bool|
                    0 <= d < self.lo.len() && #[trigger] self.slab(center, d, upper).contains(p),
        )
    }

    /// The offset of a point of a box names a cell of the grid of its sizes.
    pub proof fn lemma_offset_within(self, p: Seq<int>)
        requires
            self.shaped(self.lo.len()),
            self.contains(p),
        ensures
            within(self.offset_of(p), self.sizes()),
            0 <= self.linear_index(p) < self.volume(),
    {
        assert forall|d: int| 0 <= d < self.sizes().len() implies 0 <= #[trigger] self.offset_of(
            p,
        )[d] < self.sizes()[d] by {
            assert(self.lo[d] <= p[d] <= self.hi[d]);
        }
        lemma_suffix_offset_bounds(self.offset_of(p), self.sizes(), 0);
    }

    /// Two points of a box with the same row-major position are the same
    /// point: numbering the points of a box and reading a point back from its
    /// number undo each other.
    pub proof fn lemma_linear_index_injective(self, p: Seq<int>, q: Seq<int>)
        requires
            self.shaped(self.lo.len()),
            self.contains(p),
            self.contains(q),
            self.linear_index(p) == self.linear_index(q),
        ensures
            p == q,
    {
        self.lemma_offset_within(p);
        self.lemma_offset_within(q);
        lemma_row_major_injective(self.offset_of(p), self.offset_of(q), self.sizes());
        assert forall|d: int| 0 <= d < p.len() implies p[d] == q[d] by {
            assert(self.offset_of(p)[d] == p[d] - self.lo[d]);
            assert(self.offset_of(q)[d] == q[d] - self.lo[d]);
        }
        assert(p =~= q);
    }

    /// A point no more than one box away on every axis is carried into the
    /// box by wrapping, as long as each coordinate that lies below the box is
    /// negative and not below `lo - hi - 1`.  For a box whose lower corner is
    /// the origin this asks nothing more than being one box away.
    pub proof fn lemma_periodic_point_in_box(self, p: Seq<int>)
        requires
            self.shaped(p.len()),
            self.valid(),
            forall|d: int|
                0 <= d < p.len() ==> self.lo[d] - self.size(d) <= #[trigger] p[d] <= self.hi[d]
                    + self.size(d),
            forall|d: int|
                0 <= d < p.len() && #[trigger] p[d] < self.lo[d] ==> self.lo[d] - self.hi[d] - 1
                    <= p[d] <= -1,
        ensures
            self.contains(self.periodic_point(p)),
    {
        let q = self.periodic_point(p);
        assert forall|d: int| 0 <= d < self.lo.len() implies self.lo[d] <= #[trigger] q[d]
            <= self.hi[d] by {
            assert(q[d] == self.wrap(d, p[d]));
            assert(self.lo[d] <= self.hi[d]);
            assert(self.lo[d] - self.size(d) <= p[d] <= self.hi[d] + self.size(d));
        }
    }

    /// Wrapping a point on an axis lands between the faces of that axis
    /// exactly when the coordinate is inside already, or lies above by at most
    /// one box, or lies below, is negative and is not below `lo - hi - 1`.
    pub proof fn lemma_wrap_lands_inside(self, d: int, x: int)
        requires
            0 <= d < self.lo.len(),
            self.shaped(self.lo.len()),
            self.lo[d] <= self.hi[d],
        ensures
            (self.lo[d] <= self.wrap(d, x) <= self.hi[d]) <==> {
                ||| self.lo[d] <= x <= self.hi[d]
                ||| self.hi[d] < x <= self.hi[d] + self.size(d)
                ||| x < self.lo[d] && self.lo[d] - self.hi[d] - 1 <= x <= -1
            },
    {
    }

    /// Growing a box in two stages moves every face as far as growing it
    /// once by the sum of the steps.
    pub proof fn lemma_grown_twice(self, per_step: Faces, first: int, second: int)
        ensures
            self.grown(per_step, first).grown(per_step, second) == self.grown(
                per_step,
                first + second,
            ),
    {
        let twice = self.grown(per_step, first).grown(per_step, second);
        let once = self.grown(per_step, first + second);
        assert forall|d: int| 0 <= d < self.lo.len() implies twice.lo[d] == once.lo[d] by {
            let x = per_step.lo[d];
            assert(first * x + second * x == (first + second) * x) by (nonlinear_arith);
        }
        assert forall|d: int| 0 <= d < self.hi.len() implies twice.hi[d] == once.hi[d] by {
            let x = per_step.hi[d];
            assert(first * x + second * x == (first + second) * x) by (nonlinear_arith);
        }
        assert(twice.lo =~= once.lo);
        assert(twice.hi =~= once.hi);
    }

    /// Shrinking undoes growing by the same steps.
    pub proof fn lemma_shrunk_undoes_grown(self, per_step: Faces, steps: int)
        requires
            self.shaped(self.lo.len()),
        ensures
            self.grown(per_step, steps).shrunk(per_step, steps) == self,
    {
        let back = self.grown(per_step, steps).shrunk(per_step, steps);
        assert(back.lo =~= self.lo);
        assert(back.hi =~= self.hi);
    }

    /// Shrinking a box in two stages moves every face as far as shrinking it
    /// once by the sum of the steps.
    pub proof fn lemma_shrunk_twice(self, per_step: Faces, first: int, second: int)
        ensures
            self.shrunk(per_step, first).shrunk(per_step, second) == self.shrunk(
                per_step,
                first + second,
            ),
    {
        let twice = self.shrunk(per_step, first).shrunk(per_step, second);
        let once = self.shrunk(per_step, first + second);
        assert forall|d: int| 0 <= d < self.lo.len() implies twice.lo[d] == once.lo[d] by {
            let x = per_step.lo[d];
            assert(first * x + second * x == (first + second) * x) by (nonlinear_arith);
        }
        assert forall|d: int| 0 <= d < self.hi.len() implies twice.hi[d] == once.hi[d] by {
            let x = per_step.hi[d];
            assert(first * x + second * x == (first + second) * x) by (nonlinear_arith);
        }
        assert(twice.lo =~= once.lo);
        assert(twice.hi =~= once.hi);
    }

    /// Along one axis, the faces of a box that shrinks by moving inward lie
    /// between where they started and where they end.
    proof fn lemma_shrunk_faces(self, per_step: Faces, t: int, steps: int, d: int)
        requires
            self.shaped(self.lo.len()),
            per_step.shaped(self.lo.len()),
            0 <= d < self.lo.len(),
            0 <= per_step.lo[d],
            0 <= per_step.hi[d],
            0 <= t <= steps,
        ensures
            self.lo[d] <= self.shrunk(per_step, t).lo[d] <= self.shrunk(per_step, steps).lo[d],
            self.shrunk(per_step, steps).hi[d] <= self.shrunk(per_step, t).hi[d] <= self.hi[d],
    {
        let x = per_step.lo[d];
        let y = per_step.hi[d];
        assert(0 <= t * x <= steps * x) by (nonlinear_arith)
            requires
                0 <= t <= steps,
                0 <= x,
        ;
        assert(0 <= t * y <= steps * y) by (nonlinear_arith)
            requires
                0 <= t <= steps,
                0 <= y,
        ;
    }

    /// A box that shrinks by moving faces inward, and is still a box after
    /// `steps` steps, is a box after fewer steps too; it lies in the box it
    /// started from and holds the box it ends as.
    pub proof fn lemma_shrunk_inside(self, per_step: Faces, t: int, steps: int)
        requires
            self.shaped(self.lo.len()),
            per_step.shaped(self.lo.len()),
            forall|d: int| 0 <= d < self.lo.len() ==> 0 <= #[trigger] per_step.lo[d],
            forall|d: int| 0 <= d < self.lo.len() ==> 0 <= #[trigger] per_step.hi[d],
            0 <= t <= steps,
            self.shrunk(per_step, steps).valid(),
        ensures
            self.shrunk(per_step, t).valid(),
            self.encloses(self.shrunk(per_step, t)),
            self.shrunk(per_step, t).encloses(self.shrunk(per_step, steps)),
    {
        let now = self.shrunk(per_step, t);
        let last = self.shrunk(per_step, steps);
        assert forall|d: int| 0 <= d < now.lo.len() implies now.lo[d] <= now.hi[d] by {
            self.lemma_shrunk_faces(per_step, t, steps, d);
            assert(last.lo[d] <= last.hi[d]);
        }
        assert forall|d: int| 0 <= d < self.lo.len() implies self.lo[d] <= #[trigger] now.lo[d] by {
            self.lemma_shrunk_faces(per_step, t, steps, d);
        }
        assert forall|d: int| 0 <= d < self.hi.len() implies #[trigger] now.hi[d] <= self.hi[d] by {
            self.lemma_shrunk_faces(per_step, t, steps, d);
        }
        assert forall|d: int| 0 <= d < now.lo.len() implies now.lo[d] <= #[trigger] last.lo[d] by {
            self.lemma_shrunk_faces(per_step, t, steps, d);
        }
        assert forall|d: int| 0 <= d < now.hi.len() implies #[trigger] last.hi[d] <= now.hi[d] by {
            self.lemma_shrunk_faces(per_step, t, steps, d);
        }
    }

    /// A box inside a box that can be stored can be stored, and every face of
    /// it fits in an `i32` if the faces of the outer box do.
    pub proof fn lemma_inner_storable(self, inner: Faces)
        requires
            self.shaped(self.lo.len()),
            inner.shaped(self.lo.len()),
            self.storable(),
            self.fits_i32(),
            inner.valid(),
            self.encloses(inner),
        ensures
            inner.storable(),
            inner.fits_i32(),
            inner.volume() <= self.volume(),
    {
        assert forall|d: int| 0 <= d < self.lo.len() implies 1 <= #[trigger] inner.sizes()[d]
            <= self.sizes()[d] by {
            assert(self.lo[d] <= inner.lo[d]);
            assert(inner.hi[d] <= self.hi[d]);
            assert(inner.lo[d] <= inner.hi[d]);
        }
        lemma_suffix_product_le(inner.sizes(), self.sizes(), 0);
        assert forall|d: int| 0 <= d < inner.lo.len() implies #[trigger] inner.size(d)
            <= i32::MAX by {
            assert(inner.sizes()[d] <= self.sizes()[d]);
            assert(self.size(d) <= i32::MAX);
        }
        assert forall|d: int| 0 <= d < inner.lo.len() implies i32::MIN <= #[trigger] inner.lo[d]
            <= i32::MAX by {
            assert(self.lo[d] <= inner.lo[d] <= inner.hi[d]);
            assert(inner.hi[d] <= self.hi[d] <= i32::MAX);
            assert(i32::MIN <= self.lo[d]);
        }
        assert forall|d: int| 0 <= d < inner.hi.len() implies i32::MIN <= #[trigger] inner.hi[d]
            <= i32::MAX by {
            assert(self.lo[d] <= inner.lo[d] <= inner.hi[d]);
            assert(inner.hi[d] <= self.hi[d] <= i32::MAX);
            assert(i32::MIN <= self.lo[d]);
        }
    }

    /// Every slab lies in the box it was cut from.
    proof fn lemma_slab_inside(self, center: Faces, d: int, upper: bool, p: Seq<int>)
        requires
            self.shaped(self.lo.len()),
            center.shaped(self.lo.len()),
            center.valid(),
            self.encloses(center),
            0 <= d < self.lo.len(),
            self.slab(center, d, upper).contains(p),
        ensures
            self.contains(p),
            !center.contains(p),
    {
        let s = self.slab(center, d, upper);
        assert forall|e: int| 0 <= e < self.lo.len() implies self.lo[e] <= #[trigger] p[e]
            <= self.hi[e] by {
            assert(s.lo[e] <= p[e] <= s.hi[e]);
            assert(self.lo[e] <= center.lo[e]);
            assert(center.hi[e] <= self.hi[e]);
            assert(center.lo[e] <= center.hi[e]);
        }
        assert(s.lo[d] <= p[d] <= s.hi[d]);
    }

    /// Two slabs that share a point are the same slab.
    proof fn lemma_slabs_apart(
        self,
        center: Faces,
        d1: int,
        upper1: bool,
        d2: int,
        upper2: bool,
        p: Seq<int>,
    )
        requires
            self.shaped(self.lo.len()),
            center.shaped(self.lo.len()),
            center.valid(),
            0 <= d1 < self.lo.len(),
            0 <= d2 < self.lo.len(),
            self.slab(center, d1, upper1).contains(p),
            self.slab(center, d2, upper2).contains(p),
        ensures
            d1 == d2,
            upper1 == upper2,
    {
        let one = self.slab(center, d1, upper1);
        let other = self.slab(center, d2, upper2);
        assert(one.lo[d1] <= p[d1] <= one.hi[d1]);
        assert(other.lo[d1] <= p[d1] <= other.hi[d1]);
        assert(one.lo[d2] <= p[d2] <= one.hi[d2]);
        assert(other.lo[d2] <= p[d2] <= other.hi[d2]);
        assert(center.lo[d1] <= center.hi[d1]);
        assert(center.lo[d2] <= center.hi[d2]);
    }

    /// A point of the box that agrees with `center` on the axes before `k`
    /// lies in `center` or in a slab.
    proof fn lemma_slab_found(self, center: Faces, p: Seq<int>, k: int)
        requires
            self.shaped(self.lo.len()),
            center.shaped(self.lo.len()),
            self.contains(p),
            0 <= k <= self.lo.len(),
            forall|e: int| 0 <= e < k ==> center.lo[e] <= #[trigger] p[e] <= center.hi[e],
        ensures
            center.contains(p) || self.slab_points(center).contains(p),
        decreases self.lo.len() - k,
    {
        if k < self.lo.len() {
            if center.lo[k] <= p[k] <= center.hi[k] {
                self.lemma_slab_found(center, p, k + 1);
            } else {
                let upper = p[k] > center.hi[k];
                let s = self.slab(center, k, upper);
                assert forall|e: int| 0 <= e < s.lo.len() implies s.lo[e] <= #[trigger] p[e]
                    <= s.hi[e] by {
                    assert(self.lo[e] <= p[e] <= self.hi[e]);
                    if e < k {
                        assert(center.lo[e] <= p[e] <= center.hi[e]);
                    }
                }
                assert(self.slab(center, k, upper).contains(p));
            }
        }
    }

    /// The slabs cut around a box `center` that lies inside `self`, together
    /// with `center`, cover `self` exactly, and no point lies in two of these
    /// pieces.
    pub proof fn lemma_decomposition_partitions(self, center: Faces)
        requires
            self.shaped(self.lo.len()),
            center.shaped(self.lo.len()),
            center.valid(),
            self.encloses(center),
        ensures
            self.points() == center.points().union(self.slab_points(center)),
            center.points().disjoint(self.slab_points(center)),
            forall|d1: int, upper1: bool, d2: int, upper2: bool|
                0 <= d1 < self.lo.len() && 0 <= d2 < self.lo.len() && (d1 != d2 || upper1 != upper2)
                    ==> (#[trigger] self.slab(center, d1, upper1)).points().disjoint(
                    (#[trigger] self.slab(center, d2, upper2)).points(),
                ),
    {
        let whole = self.points();
        let pieces = center.points().union(self.slab_points(center));
        assert forall|p: Seq<int>| whole.contains(p) <==> pieces.contains(p) by {
            if self.contains(p) {
                self.lemma_slab_found(center, p, 0);
            }
            if center.contains(p) {
                assert forall|e: int| 0 <= e < self.lo.len() implies self.lo[e] <= #[trigger] p[e]
                    <= self.hi[e] by {
                    assert(center.lo[e] <= p[e] <= center.hi[e]);
                    assert(self.lo[e] <= center.lo[e]);
                    assert(center.hi[e] <= self.hi[e]);
                }
            }
            if self.slab_points(center).contains(p) {
                let (d, upper) = choose|d: int, upper: bool|
                    0 <= d < self.lo.len() && #[trigger] self.slab(center, d, upper).contains(p);
                self.lemma_slab_inside(center, d, upper, p);
            }
        }
        assert(whole =~= pieces);
        assert forall|p: Seq<int>|
            !(center.points().contains(p) && self.slab_points(center).contains(p)) by {
            if self.slab_points(center).contains(p) {
                let (d, upper) = choose|d: int, upper: bool|
                    0 <= d < self.lo.len() && #[trigger] self.slab(center, d, upper).contains(p);
                self.lemma_slab_inside(center, d, upper, p);
            }
        }
        assert forall|d1: int, upper1: bool, d2: int, upper2: bool|
            0 <= d1 < self.lo.len() && 0 <= d2 < self.lo.len() && (d1 != d2 || upper1
                != upper2) implies (#[trigger] self.slab(center, d1, upper1)).points().disjoint(
            (#[trigger] self.slab(center, d2, upper2)).points(),
        ) by {
            let one = self.slab(center, d1, upper1);
            let other = self.slab(center, d2, upper2);
            assert forall|p: Seq<int>| !(one.points().contains(p) && other.points().contains(p)) by {
                if one.contains(p) && other.contains(p) {
                    self.lemma_slabs_apart(center, d1, upper1, d2, upper2, p);
                }
            }
        }
    }
}

} // verus!
