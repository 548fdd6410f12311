use vstd::prelude::*;
use crate::fft_solver::ap_frustrum::{Frustrum, Side};
use crate::util::faces::Faces;

verus! {

impl Frustrum {
    /// The points that lie in at least one wall.
    pub open spec fn wall_points(self) -> Set<Seq<int>> {
        Set::new(
            |p: Seq<int>|
                exists|i: int| 0 <= i < self.wall_count() && (#[trigger] self.wall(i)).output.contains(p),
        )
    }

    /// Nothing is left of the output region before axis `d` is treated: the
    /// first wall took all of it, or the two walls of an axis between `axis`
    /// and `d` did.
    pub open spec fn emptied_before(self, d: int) -> bool {
        ||| self.output.size(self.axis) == self.steps
        ||| exists|e: int| self.axis < e < d && #[trigger] self.output.size(e) == 2 * self.steps
    }

    /// The output region is thick enough for its walls: the first wall fits
    /// along `axis`, and along every later axis the two walls fit side by
    /// side unless nothing is left by then.
    pub open spec fn thick_enough(self) -> bool {
        &&& self.steps <= self.output.size(self.axis)
        &&& forall|d: int|
            self.axis < d < self.output.lo.len() ==> self.emptied_before(d) || 2 * self.steps
                <= #[trigger] self.output.size(d)
    }

    /// Every sloped face has stencil slope 1.
    pub open spec fn unit_sloped_slopes(self, stencil_slopes: Faces) -> bool {
        &&& stencil_slopes.shaped(self.output.lo.len())
        &&& forall|d: int|
            0 <= d < self.output.lo.len() && self.sloped().lo[d] == 1
                ==> #[trigger] stencil_slopes.lo[d] == 1
        &&& forall|d: int|
            0 <= d < self.output.lo.len() && self.sloped().hi[d] == 1
                ==> #[trigger] stencil_slopes.hi[d] == 1
    }

    /// A wall along a later axis is that axis' layers of the remainder.
    proof fn lemma_wall_is_side_wall(self, d: int, side: Side)
        requires
            self.wf(),
            self.axis < d < self.output.lo.len(),
        ensures
            ({
                let i = 1 + 2 * (d - self.axis - 1) + side.outer();
                0 < i < self.wall_count() && self.wall(i) == self.side_wall(d, side)
            }),
    {
    }

    /// Every wall but the first is a side wall of a later axis.
    proof fn lemma_wall_axis(self, i: int)
        requires
            self.wf(),
            0 < i < self.wall_count(),
        ensures
            self.axis < self.wall(i).axis < self.output.lo.len(),
            self.wall(i) == self.side_wall(self.wall(i).axis, self.wall(i).side),
            i == 1 + 2 * (self.wall(i).axis - self.axis - 1) + self.wall(i).side.outer(),
    {
    }

    /// A point of the remainder before axis `d` shows that something is left
    /// there.
    proof fn lemma_point_shows_left(self, d: int, p: Seq<int>)
        requires
            self.wf(),
            self.axis < d <= self.output.lo.len(),
            p.len() == self.output.lo.len(),
            forall|e: int|
                self.axis <= e < d ==> self.remainder(d).lo[e] <= #[trigger] p[e] <= self.remainder(
                    d,
                ).hi[e],
        ensures
            !self.emptied_before(d),
    {
        let a = self.axis;
        assert(self.remainder(d).lo[a] <= p[a] <= self.remainder(d).hi[a]);
        assert(self.output.size(a) != self.steps);
        assert forall|e: int| a < e < d implies #[trigger] self.output.size(e) != 2 * self.steps by {
            assert(self.remainder(d).lo[e] <= p[e] <= self.remainder(d).hi[e]);
        }
    }

    /// The remainder lies in the output region.
    proof fn lemma_remainder_inside(self, d: int, p: Seq<int>)
        requires
            self.wf(),
            self.remainder(d).contains(p),
        ensures
            self.output.contains(p),
    {
        let r = self.remainder(d);
        assert forall|e: int| 0 <= e < self.output.lo.len() implies self.output.lo[e]
            <= #[trigger] p[e] <= self.output.hi[e] by {
            assert(r.lo[e] <= p[e] <= r.hi[e]);
        }
    }

    /// The first wall lies in the output region and outside every remainder.
    proof fn lemma_first_wall_inside(self, p: Seq<int>, d: int)
        requires
            self.wf(),
            self.thick_enough(),
            self.first_wall().output.contains(p),
            self.axis < d,
        ensures
            self.output.contains(p),
            !self.remainder(d).contains(p),
    {
        let w = self.first_wall().output;
        let a = self.axis;
        assert forall|e: int| 0 <= e < self.output.lo.len() implies self.output.lo[e]
            <= #[trigger] p[e] <= self.output.hi[e] by {
            assert(w.lo[e] <= p[e] <= w.hi[e]);
        }
        assert(w.lo[a] <= p[a] <= w.hi[a]);
        if self.remainder(d).contains(p) {
            assert(self.remainder(d).lo[a] <= p[a] <= self.remainder(d).hi[a]);
        }
    }

    /// A wall along a later axis lies in the remainder it was cut from, and
    /// outside every later remainder; the two walls of an axis share no point.
    proof fn lemma_side_wall_inside(self, d: int, side: Side, p: Seq<int>, later: int)
        requires
            self.wf(),
            self.thick_enough(),
            self.axis < d < self.output.lo.len(),
            self.side_wall(d, side).output.contains(p),
            d < later,
        ensures
            self.remainder(d).contains(p),
            !self.remainder(later).contains(p),
            side == Side::Min ==> !self.side_wall(d, Side::Max).output.contains(p),
    {
        let w = self.side_wall(d, side).output;
        let r = self.remainder(d);
        assert forall|e: int| self.axis <= e < d implies r.lo[e] <= #[trigger] p[e] <= r.hi[e] by {
            assert(w.lo[e] <= p[e] <= w.hi[e]);
        }
        self.lemma_point_shows_left(d, p);
        assert(2 * self.steps <= self.output.size(d));
        assert(w.lo[d] <= p[d] <= w.hi[d]);
        assert forall|e: int| 0 <= e < r.lo.len() implies r.lo[e] <= #[trigger] p[e] <= r.hi[e] by {
            assert(w.lo[e] <= p[e] <= w.hi[e]);
        }
        if self.remainder(later).contains(p) {
            assert(self.remainder(later).lo[d] <= p[d] <= self.remainder(later).hi[d]);
        }
        let other = self.side_wall(d, Side::Max).output;
        if side == Side::Min && other.contains(p) {
            assert(other.lo[d] <= p[d] <= other.hi[d]);
        }
    }

    /// A point of the remainder before axis `d` lies in a wall of axis `d` or
    /// later, or in the interior.
    proof fn lemma_remainder_covered(self, d: int, p: Seq<int>)
        requires
            self.wf(),
            self.axis < d <= self.output.lo.len(),
            self.remainder(d).contains(p),
        ensures
            self.interior().contains(p) || self.wall_points().contains(p),
        decreases self.output.lo.len() - d,
    {
        let n = self.output.lo.len() as int;
        if d < n {
            let r = self.remainder(d);
            assert(r.lo[d] <= p[d] <= r.hi[d]);
            let side = if p[d] <= r.lo[d] + self.steps - 1 {
                Some(Side::Min)
            } else if p[d] >= r.hi[d] - (self.steps - 1) {
                Some(Side::Max)
            } else {
                None
            };
            match side {
                Some(sd) => {
                    let w = self.side_wall(d, sd).output;
                    assert forall|e: int| 0 <= e < w.lo.len() implies w.lo[e] <= #[trigger] p[e]
                        <= w.hi[e] by {
                        assert(r.lo[e] <= p[e] <= r.hi[e]);
                    }
                    self.lemma_wall_is_side_wall(d, sd);
                    let i = 1 + 2 * (d - self.axis - 1) + sd.outer();
                    assert(self.wall(i).output.contains(p));
                },
                None => {
                    let next = self.remainder(d + 1);
                    assert forall|e: int| 0 <= e < next.lo.len() implies next.lo[e]
                        <= #[trigger] p[e] <= next.hi[e] by {
                        assert(r.lo[e] <= p[e] <= r.hi[e]);
                    }
                    self.lemma_remainder_covered(d + 1, p);
                },
            }
        }
    }

    /// A point of the output region lies in a wall or in the interior.
    proof fn lemma_output_covered(self, p: Seq<int>)
        requires
            self.wf(),
            self.output.contains(p),
        ensures
            self.interior().contains(p) || self.wall_points().contains(p),
    {
        let a = self.axis;
        let b = self.output;
        assert(b.lo[a] <= p[a] <= b.hi[a]);
        let in_wall = match self.side {
            Side::Min => p[a] <= b.lo[a] + self.steps - 1,
            Side::Max => p[a] >= b.hi[a] - (self.steps - 1),
        };
        if in_wall {
            let w = self.first_wall().output;
            assert forall|e: int| 0 <= e < w.lo.len() implies w.lo[e] <= #[trigger] p[e]
                <= w.hi[e] by {
                assert(b.lo[e] <= p[e] <= b.hi[e]);
            }
            assert(self.wall(0).output.contains(p));
        } else {
            let r = self.remainder(a + 1);
            assert forall|e: int| 0 <= e < r.lo.len() implies r.lo[e] <= #[trigger] p[e]
                <= r.hi[e] by {
                assert(b.lo[e] <= p[e] <= b.hi[e]);
            }
            self.lemma_remainder_covered(a + 1, p);
        }
    }

    /// A wall lies in the output region and outside the interior.
    proof fn lemma_wall_inside(self, i: int, p: Seq<int>)
        requires
            self.wf(),
            self.thick_enough(),
            0 <= i < self.wall_count(),
            self.wall(i).output.contains(p),
        ensures
            self.output.contains(p),
            !self.interior().contains(p),
    {
        let n = self.output.lo.len() as int;
        if i == 0 {
            self.lemma_first_wall_inside(p, n);
        } else {
            self.lemma_wall_axis(i);
            let w = self.wall(i);
            self.lemma_side_wall_inside(w.axis, w.side, p, n);
            self.lemma_remainder_inside(w.axis, p);
        }
    }

    /// A point of a wall lies in no later wall.
    proof fn lemma_walls_apart(self, i: int, j: int, p: Seq<int>)
        requires
            self.wf(),
            self.thick_enough(),
            0 <= i < j < self.wall_count(),
            self.wall(i).output.contains(p),
        ensures
            !self.wall(j).output.contains(p),
    {
        if self.wall(j).output.contains(p) {
            self.lemma_wall_axis(j);
            let wj = self.wall(j);
            let n = self.output.lo.len() as int;
            self.lemma_side_wall_inside(wj.axis, wj.side, p, n);
            if i == 0 {
                self.lemma_first_wall_inside(p, wj.axis);
            } else {
                self.lemma_wall_axis(i);
                let wi = self.wall(i);
                if wi.axis < wj.axis {
                    self.lemma_side_wall_inside(wi.axis, wi.side, p, wj.axis);
                } else {
                    assert(wi.axis == wj.axis);
                    assert(wi.side == Side::Min && wj.side == Side::Max);
                    self.lemma_side_wall_inside(wi.axis, wi.side, p, n);
                }
            }
        }
    }

    /// The walls of a frustrum whose output region is thick enough, together
    /// with the interior they enclose, cover the output region exactly, and no
    /// point lies in two of these pieces.
    pub proof fn lemma_walls_tile_rim(self)
        requires
            self.wf(),
            self.thick_enough(),
        ensures
            self.output.points() == self.interior().points().union(self.wall_points()),
            self.interior().points().disjoint(self.wall_points()),
            forall|i: int, j: int|
                0 <= i < j < self.wall_count() ==> (#[trigger] self.wall(i)).output.points().disjoint(
                    (#[trigger] self.wall(j)).output.points(),
                ),
    {
        let n = self.output.lo.len() as int;
        let whole = self.output.points();
        let pieces = self.interior().points().union(self.wall_points());
        assert forall|p: Seq<int>| whole.contains(p) <==> pieces.contains(p) by {
            if self.output.contains(p) {
                self.lemma_output_covered(p);
            }
            if self.interior().contains(p) {
                self.lemma_remainder_inside(n, p);
            }
            if self.wall_points().contains(p) {
                let i = choose|i: int|
                    0 <= i < self.wall_count() && (#[trigger] self.wall(i)).output.contains(p);
                self.lemma_wall_inside(i, p);
            }
        }
        assert(whole =~= pieces);
        assert forall|p: Seq<int>|
            !(self.interior().points().contains(p) && self.wall_points().contains(p)) by {
            if self.wall_points().contains(p) {
                let i = choose|i: int|
                    0 <= i < self.wall_count() && (#[trigger] self.wall(i)).output.contains(p);
                self.lemma_wall_inside(i, p);
            }
        }
        assert forall|i: int, j: int| 0 <= i < j < self.wall_count() implies (#[trigger] self.wall(
            i,
        )).output.points().disjoint((#[trigger] self.wall(j)).output.points()) by {
            let a = self.wall(i).output;
            let b = self.wall(j).output;
            assert forall|p: Seq<int>| !(a.points().contains(p) && b.points().contains(p)) by {
                if a.contains(p) {
                    self.lemma_walls_apart(i, j, p);
                }
            }
        }
    }

    /// Where every sloped face has stencil slope 1, the region on which a
    /// periodic solve is valid is the interior that the walls enclose.
    pub proof fn lemma_periodic_output_is_interior(self, stencil_slopes: Faces)
        requires
            self.wf(),
            self.unit_sloped_slopes(stencil_slopes),
        ensures
            self.periodic_output(stencil_slopes) == self.interior(),
    {
        let n = self.output.lo.len() as int;
        let out = self.periodic_output(stencil_slopes);
        let inner = self.interior();
        let per_step = stencil_slopes.times(self.sloped());
        assert forall|d: int| 0 <= d < n implies out.lo[d] == inner.lo[d] && out.hi[d]
            == inner.hi[d] by {
            let bl = self.sloped().lo[d];
            let bh = self.sloped().hi[d];
            assert(bl == 0 || bl == 1);
            assert(bh == 0 || bh == 1);
            assert(per_step.lo[d] == stencil_slopes.lo[d] * bl);
            assert(per_step.hi[d] == stencil_slopes.hi[d] * bh);
            assert(per_step.lo[d] == bl) by (nonlinear_arith)
                requires
                    per_step.lo[d] == stencil_slopes.lo[d] * bl,
                    bl == 0 || (bl == 1 && stencil_slopes.lo[d] == 1),
            ;
            assert(per_step.hi[d] == bh) by (nonlinear_arith)
                requires
                    per_step.hi[d] == stencil_slopes.hi[d] * bh,
                    bh == 0 || (bh == 1 && stencil_slopes.hi[d] == 1),
            ;
            assert(self.steps * per_step.lo[d] == if bl == 1 {
                self.steps
            } else {
                0
            }) by (nonlinear_arith)
                requires
                    per_step.lo[d] == bl,
                    bl == 0 || bl == 1,
            ;
            assert(self.steps * per_step.hi[d] == if bh == 1 {
                self.steps
            } else {
                0
            }) by (nonlinear_arith)
                requires
                    per_step.hi[d] == bh,
                    bh == 0 || bh == 1,
            ;
        }
        assert(out.lo =~= inner.lo);
        assert(out.hi =~= inner.hi);
    }

    /// The region on which a periodic solve is valid is what the frustrum
    /// reads with every face moved inward by `steps` times its stencil slope:
    /// a face that is not sloped comes back to where the output region has
    /// it, and a sloped face moves into the output region.
    pub proof fn lemma_periodic_output_from_reads(self, stencil_slopes: Faces)
        requires
            self.wf(),
            stencil_slopes.shaped(self.output.lo.len()),
        ensures
            self.reads(stencil_slopes).shrunk(stencil_slopes, self.steps) == self.periodic_output(
                stencil_slopes,
            ),
    {
        let n = self.output.lo.len() as int;
        let direct = self.periodic_output(stencil_slopes);
        let around = self.reads(stencil_slopes).shrunk(stencil_slopes, self.steps);
        assert forall|d: int| 0 <= d < n implies around.lo[d] == direct.lo[d] && around.hi[d]
            == direct.hi[d] by {
            let t = self.steps;
            let x = stencil_slopes.lo[d];
            let y = stencil_slopes.hi[d];
            let a = self.inward().lo[d];
            let b = self.inward().hi[d];
            assert(self.sloped().lo[d] == 1 - a);
            assert(self.sloped().hi[d] == 1 - b);
            assert(t * x - t * (x * a) == t * (x * (1 - a))) by (nonlinear_arith);
            assert(t * y - t * (y * b) == t * (y * (1 - b))) by (nonlinear_arith);
        }
        assert(around.lo =~= direct.lo);
        assert(around.hi =~= direct.hi);
    }

    /// The walls of a frustrum, together with the region on which the
    /// periodic solve is valid, cover the output region exactly, and no point
    /// lies in two of these pieces.  This holds where the output region is
    /// thick enough for its walls and every sloped face has stencil slope 1:
    /// the walls are `steps` layers thick whatever the stencil.
    pub proof fn lemma_decomposition_tiles_output(self, stencil_slopes: Faces)
        requires
            self.wf(),
            self.thick_enough(),
            self.unit_sloped_slopes(stencil_slopes),
        ensures
            self.output.points() == self.periodic_output(stencil_slopes).points().union(
                self.wall_points(),
            ),
            self.periodic_output(stencil_slopes).points().disjoint(self.wall_points()),
            forall|i: int, j: int|
                0 <= i < j < self.wall_count() ==> (#[trigger] self.wall(i)).output.points().disjoint(
                    (#[trigger] self.wall(j)).output.points(),
                ),
    {
        self.lemma_periodic_output_is_interior(stencil_slopes);
        self.lemma_walls_tile_rim();
    }

    /// Along one axis, the faces of the interior and of the region on which
    /// the periodic solve is valid, counted from the faces of the output
    /// region.
    proof fn lemma_inner_faces(self, stencil_slopes: Faces, d: int)
        requires
            self.wf(),
            stencil_slopes.shaped(self.output.lo.len()),
            0 <= d < self.output.lo.len(),
        ensures
            self.sloped().lo[d] == 0 || self.sloped().lo[d] == 1,
            self.sloped().hi[d] == 0 || self.sloped().hi[d] == 1,
            self.interior().lo[d] == self.output.lo[d] + self.steps * self.sloped().lo[d],
            self.interior().hi[d] == self.output.hi[d] - self.steps * self.sloped().hi[d],
            self.periodic_output(stencil_slopes).lo[d] == self.output.lo[d] + self.steps * (
            stencil_slopes.lo[d] * self.sloped().lo[d]),
            self.periodic_output(stencil_slopes).hi[d] == self.output.hi[d] - self.steps * (
            stencil_slopes.hi[d] * self.sloped().hi[d]),
    {
        let t = self.steps;
        assert(t * 1 == t && t * 0 == 0) by (nonlinear_arith);
    }

    /// Where no sloped face has a stencil slope above 1, the walls and the
    /// region on which the periodic solve is valid leave no point of the
    /// output region out.
    pub proof fn lemma_walls_cover_output(self, stencil_slopes: Faces)
        requires
            self.wf(),
            self.thick_enough(),
            stencil_slopes.shaped(self.output.lo.len()),
            forall|d: int|
                0 <= d < self.output.lo.len() ==> 0 <= #[trigger] stencil_slopes.lo[d] <= 1,
            forall|d: int|
                0 <= d < self.output.lo.len() ==> 0 <= #[trigger] stencil_slopes.hi[d] <= 1,
        ensures
            self.output.points() == self.periodic_output(stencil_slopes).points().union(
                self.wall_points(),
            ),
    {
        self.lemma_walls_tile_rim();
        let valid = self.periodic_output(stencil_slopes);
        let inner = self.interior();
        let whole = self.output.points();
        let pieces = valid.points().union(self.wall_points());
        assert forall|d: int| 0 <= d < self.output.lo.len() implies self.output.lo[d]
            <= #[trigger] valid.lo[d] <= inner.lo[d] && inner.hi[d] <= valid.hi[d]
            <= self.output.hi[d] by {
            self.lemma_inner_faces(stencil_slopes, d);
            let t = self.steps;
            let x = stencil_slopes.lo[d];
            let y = stencil_slopes.hi[d];
            let a = self.sloped().lo[d];
            let b = self.sloped().hi[d];
            assert(0 <= t * (x * a) <= t * a) by (nonlinear_arith)
                requires
                    t >= 1,
                    0 <= x <= 1,
                    a == 0 || a == 1,
            ;
            assert(0 <= t * (y * b) <= t * b) by (nonlinear_arith)
                requires
                    t >= 1,
                    0 <= y <= 1,
                    b == 0 || b == 1,
            ;
        }
        assert forall|p: Seq<int>| whole.contains(p) <==> pieces.contains(p) by {
            if self.output.contains(p) && !self.wall_points().contains(p) {
                assert(inner.points().union(self.wall_points()).contains(p));
                assert(inner.contains(p));
                assert forall|d: int| 0 <= d < valid.lo.len() implies valid.lo[d] <= #[trigger] p[d]
                    <= valid.hi[d] by {
                    assert(inner.lo[d] <= p[d] <= inner.hi[d]);
                    assert(valid.lo[d] <= inner.lo[d]);
                }
                assert(valid.contains(p));
            }
            if valid.contains(p) {
                assert forall|d: int| 0 <= d < self.output.lo.len() implies self.output.lo[d]
                    <= #[trigger] p[d] <= self.output.hi[d] by {
                    assert(valid.lo[d] <= p[d] <= valid.hi[d]);
                    assert(self.output.lo[d] <= valid.lo[d]);
                }
                assert(self.output.contains(p));
            }
            if self.wall_points().contains(p) {
                assert(inner.points().union(self.wall_points()).contains(p));
            }
        }
        assert(whole =~= pieces);
    }

    /// Where every stencil slope is at least 1, no point of a wall lies in the
    /// region on which the periodic solve is valid.
    pub proof fn lemma_walls_beside_periodic_output(self, stencil_slopes: Faces)
        requires
            self.wf(),
            self.thick_enough(),
            stencil_slopes.shaped(self.output.lo.len()),
            forall|d: int| 0 <= d < self.output.lo.len() ==> 1 <= #[trigger] stencil_slopes.lo[d],
            forall|d: int| 0 <= d < self.output.lo.len() ==> 1 <= #[trigger] stencil_slopes.hi[d],
        ensures
            self.periodic_output(stencil_slopes).points().disjoint(self.wall_points()),
    {
        self.lemma_walls_tile_rim();
        let valid = self.periodic_output(stencil_slopes);
        let inner = self.interior();
        assert forall|d: int| 0 <= d < self.output.lo.len() implies inner.lo[d]
            <= #[trigger] valid.lo[d] && valid.hi[d] <= inner.hi[d] by {
            self.lemma_inner_faces(stencil_slopes, d);
            let t = self.steps;
            let x = stencil_slopes.lo[d];
            let y = stencil_slopes.hi[d];
            let a = self.sloped().lo[d];
            let b = self.sloped().hi[d];
            assert(t * a <= t * (x * a)) by (nonlinear_arith)
                requires
                    t >= 1,
                    1 <= x,
                    a == 0 || a == 1,
            ;
            assert(t * b <= t * (y * b)) by (nonlinear_arith)
                requires
                    t >= 1,
                    1 <= y,
                    b == 0 || b == 1,
            ;
        }
        assert forall|p: Seq<int>|
            valid.points().contains(p) && self.wall_points().contains(p) implies false by {
            assert forall|d: int| 0 <= d < inner.lo.len() implies inner.lo[d] <= #[trigger] p[d]
                <= inner.hi[d] by {
                assert(valid.lo[d] <= p[d] <= valid.hi[d]);
                assert(inner.lo[d] <= valid.lo[d]);
            }
            assert(inner.points().contains(p));
        }
    }

    /// Where the first wall fits along `axis`, the two walls of every later
    /// axis fit side by side, and the output region stays clear of both ends
    /// of the `i32` range, every face of every wall can be stored in an `i32`.
    pub proof fn lemma_walls_fit(self, i: int)
        requires
            self.wf(),
            self.steps <= self.output.size(self.axis),
            forall|d: int|
                self.axis < d < self.output.lo.len() ==> 2 * self.steps <= #[trigger] self.output.size(
                    d,
                ),
            forall|d: int| 0 <= d < self.output.lo.len() ==> i32::MIN < #[trigger] self.output.lo[d],
            forall|d: int| 0 <= d < self.output.lo.len() ==> #[trigger] self.output.hi[d] < i32::MAX,
            0 <= i < self.wall_count(),
        ensures
            self.wall(i).output.fits_i32(),
    {
        let w = self.wall(i).output;
        let b = self.output;
        if i > 0 {
            self.lemma_wall_axis(i);
        }
        assert forall|d: int| 0 <= d < w.lo.len() implies i32::MIN <= #[trigger] w.lo[d]
            <= i32::MAX by {
            assert(b.lo[d] <= b.hi[d]);
            assert(i32::MIN < b.lo[d]);
            assert(b.hi[d] < i32::MAX);
            if d > self.axis {
                assert(2 * self.steps <= self.output.size(d));
            }
            assert(b.lo[d] <= w.lo[d] <= b.hi[d] + 1);
        }
        assert forall|d: int| 0 <= d < w.hi.len() implies i32::MIN <= #[trigger] w.hi[d]
            <= i32::MAX by {
            assert(b.lo[d] <= b.hi[d]);
            assert(i32::MIN < b.lo[d]);
            assert(b.hi[d] < i32::MAX);
            if d > self.axis {
                assert(2 * self.steps <= self.output.size(d));
            }
            assert(b.lo[d] - 1 <= w.hi[d] <= b.hi[d]);
        }
    }
}

} // verus!
