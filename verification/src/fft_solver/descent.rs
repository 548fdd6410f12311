use vstd::prelude::*;
use crate::fft_solver::ap_frustrum::{Frustrum, Side};
use crate::util::faces::Faces;

verus! {

/// Stencil slopes of one cell per step on every face of a grid of `n` axes.
pub open spec fn unit_slopes(n: nat) -> Faces {
    Faces { lo: Seq::new(n, |d: int| 1int), hi: Seq::new(n, |d: int| 1int) }
}

/// No slope is negative.
pub open spec fn slopes_inward(stencil_slopes: Faces) -> bool {
    &&& forall|d: int| 0 <= d < stencil_slopes.lo.len() ==> 0 <= #[trigger] stencil_slopes.lo[d]
    &&& forall|d: int| 0 <= d < stencil_slopes.hi.len() ==> 0 <= #[trigger] stencil_slopes.hi[d]
}

impl Frustrum {
    /// Along one axis, the faces of what the frustrum reads that fills a slab
    /// beside the region that a periodic solve over `whole` gets right.
    proof fn lemma_beside_faces(
        whole: Faces,
        stencil_slopes: Faces,
        steps: int,
        d: int,
        side: Side,
        e: int,
    )
        requires
            whole.shaped(whole.lo.len()),
            stencil_slopes.shaped(whole.lo.len()),
            0 <= d < whole.lo.len(),
            0 <= e < whole.lo.len(),
        ensures
            ({
                let center = whole.shrunk(stencil_slopes, steps);
                let read = Self::beside(whole, center, d, side, steps).reads(stencil_slopes);
                let reach = steps * (stencil_slopes.lo[d] + stencil_slopes.hi[d]);
                &&& read.lo[e] == if e == d && side == Side::Max {
                    whole.hi[d] - reach + 1
                } else {
                    whole.lo[e]
                }
                &&& read.hi[e] == if e == d && side == Side::Min {
                    whole.lo[d] + reach - 1
                } else {
                    whole.hi[e]
                }
            }),
    {
        let center = whole.shrunk(stencil_slopes, steps);
        let f = Self::beside(whole, center, d, side, steps);
        let x = stencil_slopes.lo[e];
        let y = stencil_slopes.hi[e];
        let a = f.inward().lo[e];
        let b = f.inward().hi[e];
        assert(stencil_slopes.times(f.inward()).lo[e] == x * a);
        assert(stencil_slopes.times(f.inward()).hi[e] == y * b);
        assert(steps * (x * 1) == steps * x && steps * (x * 0) == 0) by (nonlinear_arith);
        assert(steps * (y * 1) == steps * y && steps * (y * 0) == 0) by (nonlinear_arith);
        assert(steps * (x + y) == steps * x + steps * y) by (nonlinear_arith);
    }

    /// Around the region that a periodic solve over `whole` gets right after
    /// `steps` steps, every frustrum reads inside `whole`: what it reads
    /// is `whole` cut down, along its own axis, to the layers from its outer
    /// face that the stencil reaches in `steps` steps from either side.
    pub proof fn lemma_beside_reads_inside(
        whole: Faces,
        stencil_slopes: Faces,
        steps: int,
        d: int,
        side: Side,
    )
        requires
            whole.shaped(whole.lo.len()),
            stencil_slopes.shaped(whole.lo.len()),
            slopes_inward(stencil_slopes),
            0 <= steps,
            whole.shrunk(stencil_slopes, steps).valid(),
            0 <= d < whole.lo.len(),
        ensures
            ({
                let center = whole.shrunk(stencil_slopes, steps);
                let read = Self::beside(whole, center, d, side, steps).reads(stencil_slopes);
                let reach = steps * (stencil_slopes.lo[d] + stencil_slopes.hi[d]);
                &&& whole.encloses(read)
                &&& forall|e: int|
                    0 <= e < whole.lo.len() && e != d ==> #[trigger] read.lo[e] == whole.lo[e]
                &&& forall|e: int|
                    0 <= e < whole.lo.len() && e != d ==> #[trigger] read.hi[e] == whole.hi[e]
                &&& side == Side::Min ==> read.lo[d] == whole.lo[d] && read.hi[d] == whole.lo[d]
                    + reach - 1
                &&& side == Side::Max ==> read.hi[d] == whole.hi[d] && read.lo[d] == whole.hi[d]
                    - reach + 1
            }),
    {
        let center = whole.shrunk(stencil_slopes, steps);
        let read = Self::beside(whole, center, d, side, steps).reads(stencil_slopes);
        let x = stencil_slopes.lo[d];
        let y = stencil_slopes.hi[d];
        assert(center.lo[d] <= center.hi[d]);
        assert(steps * (x + y) == steps * x + steps * y) by (nonlinear_arith);
        assert forall|e: int| 0 <= e < whole.lo.len() implies whole.lo[e] <= #[trigger] read.lo[e] by {
            Self::lemma_beside_faces(whole, stencil_slopes, steps, d, side, e);
        }
        assert forall|e: int| 0 <= e < whole.hi.len() implies #[trigger] read.hi[e] <= whole.hi[e] by {
            Self::lemma_beside_faces(whole, stencil_slopes, steps, d, side, e);
        }
        assert forall|e: int| 0 <= e < whole.lo.len() && e != d implies #[trigger] read.lo[e]
            == whole.lo[e] by {
            Self::lemma_beside_faces(whole, stencil_slopes, steps, d, side, e);
        }
        assert forall|e: int| 0 <= e < whole.lo.len() && e != d implies #[trigger] read.hi[e]
            == whole.hi[e] by {
            Self::lemma_beside_faces(whole, stencil_slopes, steps, d, side, e);
        }
        Self::lemma_beside_faces(whole, stencil_slopes, steps, d, side, d);
    }

    /// Where the first wall fits along `axis` and the two walls of every
    /// later axis fit side by side, every wall reads inside what the
    /// frustrum reads, for a stencil that reaches one cell per step.
    pub proof fn lemma_walls_read_inside(self, i: int)
        requires
            self.wf(),
            self.steps <= self.output.size(self.axis),
            forall|d: int|
                self.axis < d < self.output.lo.len() ==> 2 * self.steps
                    <= #[trigger] self.output.size(d),
            0 <= i < self.wall_count(),
        ensures
            self.reads(unit_slopes(self.output.lo.len())).encloses(
                self.wall(i).reads(unit_slopes(self.output.lo.len())),
            ),
    {
        let n = self.output.lo.len();
        let ones = unit_slopes(n);
        let whole = self.reads(ones);
        let w = self.wall(i);
        let read = w.reads(ones);
        let t = self.steps;
        assert(t * (1 * 1) == t && t * (1 * 0) == 0) by (nonlinear_arith);
        assert forall|e: int| 0 <= e < n implies whole.lo[e] <= #[trigger] read.lo[e] by {
            assert(ones.times(self.inward()).lo[e] == 1 * self.inward().lo[e]);
            assert(ones.times(w.inward()).lo[e] == 1 * w.inward().lo[e]);
            assert(self.output.lo[e] <= self.output.hi[e]);
            if e > self.axis {
                assert(2 * t <= self.output.size(e));
            }
        }
        assert forall|e: int| 0 <= e < n implies #[trigger] read.hi[e] <= whole.hi[e] by {
            assert(ones.times(self.inward()).hi[e] == 1 * self.inward().hi[e]);
            assert(ones.times(w.inward()).hi[e] == 1 * w.inward().hi[e]);
            assert(self.output.lo[e] <= self.output.hi[e]);
            if e > self.axis {
                assert(2 * t <= self.output.size(e));
            }
        }
    }
}

} // verus!
