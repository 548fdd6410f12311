use vstd::prelude::*;
use crate::solver::trapezoid::{face_travel, trapezoid_input_region};
use crate::util::aabb::AABB;
use crate::util::faces::{faces, Bounds, Faces};

verus! {

/// One of the two faces of a box along an axis.
#[derive(Copy, Clone, Debug, PartialEq, Eq, Structural)]
pub enum Side {
    Min,
    Max,
}

impl Side {
    /// Column of the face on this side.
    pub open spec fn outer(self) -> int {
        match self {
            Side::Min => 0,
            Side::Max => 1,
        }
    }

    /// Column of the face opposite to this side.
    pub open spec fn inner(self) -> int {
        match self {
            Side::Min => 1,
            Side::Max => 0,
        }
    }

    /// Direction that leads from this side's face into the box.
    pub open spec fn inward(self) -> int {
        match self {
            Side::Min => 1,
            Side::Max => -1,
        }
    }

    /// Column of the face opposite to this side.
    #[inline]
    pub fn inner_index(&self) -> (r: usize)
        ensures
            r == self.inner(),
    {
        match self {
            Side::Min => 1,
            Side::Max => 0,
        }
    }

    /// Column of the face on this side.
    #[inline]
    pub fn outer_index(&self) -> (r: usize)
        ensures
            r == self.outer(),
    {
        match self {
            Side::Min => 0,
            Side::Max => 1,
        }
    }

    /// Sign of a step from the opposite face out of the box.
    #[inline]
    pub fn inner_coef(&self) -> (r: i32)
        ensures
            r == -self.inward(),
    {
        match self {
            Side::Min => -1,
            Side::Max => 1,
        }
    }

    /// Sign of a step from this side's face into the box.
    #[inline]
    pub fn outer_coef(&self) -> (r: i32)
        ensures
            r == self.inward(),
    {
        match self {
            Side::Min => 1,
            Side::Max => -1,
        }
    }

    /// The name of the side, as it is printed.
    pub fn to_string(&self) -> (r: String)
        ensures
            r@ == (match self {
                Side::Min => "Min"@,
                Side::Max => "Max"@,
            }),
    {
        match self {
            Side::Min => "Min".to_owned(),
            Side::Max => "Max".to_owned(),
        }
    }
}

/// The mathematical content of an [`APFrustrum`].
pub struct Frustrum {
    pub output: Faces,
    pub axis: int,
    pub side: Side,
    pub steps: int,
}

/// Mask of the sloped faces of a frustrum along `axis` on `side`, for a grid
/// of `n` axes: 1 marks a sloped face, 0 a face that stays.  Along `axis`
/// only the face on `side` is sloped; both faces of every later axis are; no
/// face of an earlier axis is.
pub open spec fn sloped_mask(n: nat, axis: int, side: Side) -> Faces {
    Faces {
        lo: Seq::new(
            n,
            |d: int|
                if d > axis || (d == axis && side == Side::Min) {
                    1int
                } else {
                    0int
                },
        ),
        hi: Seq::new(
            n,
            |d: int|
                if d > axis || (d == axis && side == Side::Max) {
                    1int
                } else {
                    0int
                },
        ),
    }
}

/// Mask of the faces that [`sloped_mask`] leaves out: the face opposite to
/// `side` along `axis` and both faces of every earlier axis.
pub open spec fn inward_mask(n: nat, axis: int, side: Side) -> Faces {
    Faces {
        lo: Seq::new(n, |d: int| 1 - sloped_mask(n, axis, side).lo[d]),
        hi: Seq::new(n, |d: int| 1 - sloped_mask(n, axis, side).hi[d]),
    }
}

impl Frustrum {
    /// The axis lies in the grid, the output region is a box and at least one
    /// step is taken.
    pub open spec fn wf(self) -> bool {
        &&& self.output.shaped(self.output.lo.len())
        &&& self.output.valid()
        &&& 0 <= self.axis < self.output.lo.len()
        &&& self.steps >= 1
    }

    /// The sloped faces: those that contribute to the input region.
    pub open spec fn sloped(self) -> Faces {
        sloped_mask(self.output.lo.len(), self.axis, self.side)
    }

    /// The faces that are not sloped.
    pub open spec fn inward(self) -> Faces {
        inward_mask(self.output.lo.len(), self.axis, self.side)
    }

    /// The input region: the output region with every sloped face moved
    /// outward by `steps` times its stencil slope.
    pub open spec fn input(self, stencil_slopes: Faces) -> Faces {
        self.output.grown(stencil_slopes.times(self.sloped()), self.steps)
    }

    /// What the frustrum reads when it fills a slab beside a region that is
    /// solved elsewhere: the output region with every face that is not sloped
    /// moved outward by `steps` times its stencil slope.
    pub open spec fn reads(self, stencil_slopes: Faces) -> Faces {
        self.output.grown(stencil_slopes.times(self.inward()), self.steps)
    }

    /// The later part of the frustrum after cutting it `cut_steps` steps from
    /// its input: same output, fewer steps.
    pub open spec fn tail(self, cut_steps: int) -> Frustrum {
        Frustrum { steps: self.steps - cut_steps, ..self }
    }

    /// The earlier part of the frustrum after cutting it `cut_steps` steps
    /// from its input: it delivers what the tail needs.
    pub open spec fn head(self, cut_steps: int, stencil_slopes: Faces) -> Frustrum {
        Frustrum { output: self.tail(cut_steps).input(stencil_slopes), steps: cut_steps, ..self }
    }

    /// What is left of the output region once the walls along `axis` and
    /// along the axes after it and before `d` are taken away: the outer face
    /// along `axis` and both faces along those later axes have moved inward
    /// by `steps`.
    pub open spec fn remainder(self, d: int) -> Faces {
        Faces {
            lo: Seq::new(
                self.output.lo.len(),
                |e: int|
                    if (e == self.axis && self.side == Side::Min) || (self.axis < e < d) {
                        self.output.lo[e] + self.steps
                    } else {
                        self.output.lo[e]
                    },
            ),
            hi: Seq::new(
                self.output.hi.len(),
                |e: int|
                    if (e == self.axis && self.side == Side::Max) || (self.axis < e < d) {
                        self.output.hi[e] - self.steps
                    } else {
                        self.output.hi[e]
                    },
            ),
        }
    }

    /// `region` cut down to the `steps` layers next to its face along `d` on
    /// `side`.
    pub open spec fn layers(region: Faces, d: int, side: Side, steps: int) -> Faces {
        Faces {
            lo: Seq::new(
                region.lo.len(),
                |e: int|
                    if e == d && side == Side::Max {
                        region.hi[e] - (steps - 1)
                    } else {
                        region.lo[e]
                    },
            ),
            hi: Seq::new(
                region.hi.len(),
                |e: int|
                    if e == d && side == Side::Min {
                        region.lo[e] + (steps - 1)
                    } else {
                        region.hi[e]
                    },
            ),
        }
    }

    /// The wall along `axis`: the `steps` layers of the output region next to
    /// its outer face.
    pub open spec fn first_wall(self) -> Frustrum {
        Frustrum {
            output: Self::layers(self.output, self.axis, self.side, self.steps),
            axis: self.axis,
            side: self.side,
            steps: self.steps,
        }
    }

    /// The wall along a later axis `d` on `side`: the `steps` layers of the
    /// remainder next to that face.
    pub open spec fn side_wall(self, d: int, side: Side) -> Frustrum {
        Frustrum {
            output: Self::layers(self.remainder(d), d, side, self.steps),
            axis: d,
            side,
            steps: self.steps,
        }
    }

    /// Number of walls: one along `axis`, two along every later axis.
    pub open spec fn wall_count(self) -> int {
        1 + 2 * (self.output.lo.len() - 1 - self.axis)
    }

    /// The walls in the order in which they are produced: first the wall
    /// along `axis`, then for each later axis the lower wall and the upper
    /// wall.
    pub open spec fn wall(self, i: int) -> Frustrum {
        if i <= 0 {
            self.first_wall()
        } else {
            self.side_wall(
                self.axis + 1 + (i - 1) / 2,
                if (i - 1) % 2 == 0 {
                    Side::Min
                } else {
                    Side::Max
                },
            )
        }
    }

    /// The part of the output region that no wall covers.
    pub open spec fn interior(self) -> Faces {
        self.remainder(self.output.lo.len() as int)
    }

    /// The part of the output region that stays valid for `steps` steps
    /// without the walls: the output region with every sloped face moved
    /// inward by `steps` times its stencil slope.
    pub open spec fn periodic_output(self, stencil_slopes: Faces) -> Faces {
        self.output.shrunk(stencil_slopes.times(self.sloped()), self.steps)
    }

    /// Cutting a frustrum in time keeps what it reads and what it produces:
    /// the earlier part reads what the whole frustrum read, the later part
    /// produces what the whole frustrum produced, and the earlier part
    /// produces exactly what the later part reads.
    pub proof fn lemma_time_cut_preserves_input(self, cut_steps: int, stencil_slopes: Faces)
        requires
            0 < cut_steps < self.steps,
        ensures
            self.head(cut_steps, stencil_slopes).input(stencil_slopes) == self.input(
                stencil_slopes,
            ),
            self.tail(cut_steps).output == self.output,
            self.head(cut_steps, stencil_slopes).output == self.tail(cut_steps).input(
                stencil_slopes,
            ),
    {
        let per_step = stencil_slopes.times(self.sloped());
        assert(self.tail(cut_steps).sloped() == self.sloped());
        assert(self.head(cut_steps, stencil_slopes).sloped() == self.sloped());
        self.output.lemma_grown_twice(per_step, self.steps - cut_steps, cut_steps);
    }

    /// The frustrum that fills the slab which peeling axis `d` leaves on
    /// `side` of `center` inside `whole`, in `steps` steps.
    pub open spec fn beside(whole: Faces, center: Faces, d: int, side: Side, steps: int) -> Frustrum {
        Frustrum { output: whole.slab(center, d, side == Side::Max), axis: d, side, steps }
    }

    /// Faces of `mask` kept only where `region` does not reach past `limit`.
    pub open spec fn trimmed(mask: Faces, region: Faces, limit: Faces) -> Faces {
        Faces {
            lo: Seq::new(
                mask.lo.len(),
                |d: int|
                    if region.lo[d] < limit.lo[d] {
                        0int
                    } else {
                        mask.lo[d]
                    },
            ),
            hi: Seq::new(
                mask.hi.len(),
                |d: int|
                    if region.hi[d] > limit.hi[d] {
                        0int
                    } else {
                        mask.hi[d]
                    },
            ),
        }
    }
}

/// A region of the grid that is filled by stepping inward from a wider input
/// region: the region it produces, the axis and side of the face it hugs, and
/// the number of steps it takes.
#[derive(Debug, PartialEq, Eq)]
pub struct APFrustrum<const GRID_DIMENSION: usize> {
    pub output_aabb: AABB<GRID_DIMENSION>,
    pub recursion_dimension: usize,
    pub side: Side,
    pub steps: usize,
}

impl<const GRID_DIMENSION: usize> View for APFrustrum<GRID_DIMENSION> {
    type V = Frustrum;

    open spec fn view(&self) -> Frustrum {
        Frustrum {
            output: self.output_aabb@,
            axis: self.recursion_dimension as int,
            side: self.side,
            steps: self.steps as int,
        }
    }
}

impl<const GRID_DIMENSION: usize> APFrustrum<GRID_DIMENSION> {
    pub fn new(
        output_aabb: AABB<GRID_DIMENSION>,
        recursion_dimension: usize,
        side: Side,
        steps: usize,
    ) -> (r: Self)
        ensures
            r.output_aabb == output_aabb,
            r.recursion_dimension == recursion_dimension,
            r.side == side,
            r.steps == steps,
    {
        APFrustrum { output_aabb, recursion_dimension, side, steps }
    }

    /// Mask of the sloped faces: along the recursion axis only the face on
    /// `side`, both faces of every later axis, no face of an earlier axis.
    pub fn sloped_sides(&self) -> (r: Bounds<GRID_DIMENSION>)
        requires
            self.recursion_dimension < GRID_DIMENSION,
        ensures
            faces(r) == self@.sloped(),
    {
        let mut r: Bounds<GRID_DIMENSION> = [[0i32; 2]; GRID_DIMENSION];
        let at: i32 = match self.side {
            Side::Min => 1,
            Side::Max => 0,
        };
        r[self.recursion_dimension] = [at, 1 - at];
        let mut d: usize = self.recursion_dimension + 1;
        while d < GRID_DIMENSION
            invariant
                self.recursion_dimension < d <= GRID_DIMENSION,
                forall|e: int| 0 <= e < self.recursion_dimension ==> r[e][0] == 0 && r[e][1] == 0,
                r[self.recursion_dimension as int][0] == at,
                r[self.recursion_dimension as int][1] == 1 - at,
                forall|e: int| self.recursion_dimension < e < d ==> r[e][0] == 1 && r[e][1] == 1,
            decreases GRID_DIMENSION - d,
        {
            r[d] = [1, 1];
            d += 1;
        }
        assert(faces(r).lo =~= self@.sloped().lo);
        assert(faces(r).hi =~= self@.sloped().hi);
        r
    }

    /// The input region: the output region with every sloped face moved
    /// outward by `steps` times its stencil slope.
    pub fn input_aabb(&self, stencil_slopes: &Bounds<GRID_DIMENSION>) -> (r: AABB<GRID_DIMENSION>)
        requires
            self.recursion_dimension < GRID_DIMENSION,
            self@.input(faces(*stencil_slopes)).fits_i32(),
        ensures
            r@ == self@.input(faces(*stencil_slopes)),
    {
        let sloped_sides = self.sloped_sides();
        trapezoid_input_region(self.steps, &self.output_aabb, &sloped_sides, stencil_slopes)
    }

    /// Cut the frustrum `cut_steps` steps from its input.  The later part is
    /// returned; it keeps the output region and the remaining steps.  The
    /// earlier part stays in `self`: it takes `cut_steps` steps and produces
    /// what the later part takes as input.  Nothing is cut, and nothing
    /// changes, unless `cut_steps` is smaller than the number of steps.
    pub fn time_cut(&mut self, cut_steps: usize, stencil_slopes: &Bounds<GRID_DIMENSION>) -> (r:
        Option<APFrustrum<GRID_DIMENSION>>)
        requires
            old(self).recursion_dimension < GRID_DIMENSION,
            cut_steps < old(self).steps ==> old(self)@.tail(cut_steps as int).input(
                faces(*stencil_slopes),
            ).fits_i32(),
        ensures
            r is Some <==> cut_steps < old(self).steps,
            r is Some ==> r->0@ == old(self)@.tail(cut_steps as int) && final(self)@ == old(
                self,
            )@.head(cut_steps as int, faces(*stencil_slopes)),
            r is None ==> *final(self) == *old(self),
    {
        if cut_steps >= self.steps {
            return None;
        }
        let remaining_steps = self.steps - cut_steps;
        let next_frustrum = APFrustrum::new(
            self.output_aabb,
            self.recursion_dimension,
            self.side,
            remaining_steps,
        );
        self.output_aabb = next_frustrum.input_aabb(stencil_slopes);
        self.steps = cut_steps;
        Some(next_frustrum)
    }

    /// The part of the output region that stays valid without the walls:
    /// what [`Self::decompose`] leaves uncovered when every sloped face has
    /// stencil slope 1.
    pub fn periodic_solve_output(&self, stencil_slopes: &Bounds<GRID_DIMENSION>) -> (r: AABB<
        GRID_DIMENSION,
    >)
        requires
            self.recursion_dimension < GRID_DIMENSION,
            self@.periodic_output(faces(*stencil_slopes)).fits_i32(),
        ensures
            r@ == self@.periodic_output(faces(*stencil_slopes)),
    {
        let sloped_sides = self.sloped_sides();
        let ghost per_step = faces(*stencil_slopes).times(self@.sloped());
        let ghost goal = self@.periodic_output(faces(*stencil_slopes));
        let mut bounds: Bounds<GRID_DIMENSION> = self.output_aabb.bounds;
        let mut d: usize = 0;
        while d < GRID_DIMENSION
            invariant
                d <= GRID_DIMENSION,
                faces(sloped_sides) == self@.sloped(),
                per_step == faces(*stencil_slopes).times(self@.sloped()),
                goal == self@.periodic_output(faces(*stencil_slopes)),
                goal.fits_i32(),
                forall|e: int|
                    0 <= e < d ==> bounds[e][0] == goal.lo[e] && bounds[e][1] == goal.hi[e],
            decreases GRID_DIMENSION - d,
        {
            proof {
                assert(self@.sloped().lo[d as int] == sloped_sides[d as int][0]);
                assert(self@.sloped().hi[d as int] == sloped_sides[d as int][1]);
                assert(0 <= self@.sloped().lo[d as int] <= 1);
                assert(0 <= self@.sloped().hi[d as int] <= 1);
            }
            let up = face_travel(stencil_slopes[d][0], sloped_sides[d][0], self.steps);
            let down = face_travel(stencil_slopes[d][1], sloped_sides[d][1], self.steps);
            proof {
                assert(per_step.lo[d as int] == stencil_slopes[d as int][0]
                    * sloped_sides[d as int][0]);
                assert(per_step.hi[d as int] == stencil_slopes[d as int][1]
                    * sloped_sides[d as int][1]);
                assert(goal.lo[d as int] == self.output_aabb.bounds[d as int][0] + up);
                assert(goal.hi[d as int] == self.output_aabb.bounds[d as int][1] - down);
            }
            let lo: i128 = self.output_aabb.bounds[d][0] as i128 + up;
            let hi: i128 = self.output_aabb.bounds[d][1] as i128 - down;
            bounds[d] = [lo as i32, hi as i32];
            d += 1;
        }
        let r = AABB { bounds };
        assert(r@.lo =~= goal.lo);
        assert(r@.hi =~= goal.hi);
        r
    }
    /// Split the rim of the output region into walls, one frustrum each.  The
    /// first wall is the `steps` layers next to the outer face along the
    /// recursion axis.  What is left is then treated axis by axis, for every
    /// later axis: the `steps` layers at its lower face and at its upper face
    /// become a wall each, and what is left loses them.
    pub fn decompose(&self) -> (r: Vec<APFrustrum<GRID_DIMENSION>>)
        requires
            self.recursion_dimension < GRID_DIMENSION,
            forall|i: int|
                0 <= i < self@.wall_count() ==> (#[trigger] self@.wall(i)).output.fits_i32(),
        ensures
            r@.len() == self@.wall_count(),
            forall|i: int| 0 <= i < r@.len() ==> (#[trigger] r[i])@ == self@.wall(i),
    {
        let ghost f = self@;
        let axis = self.recursion_dimension;
        let lo = self.output_aabb.bounds[axis][0];
        let hi = self.output_aabb.bounds[axis][1];
        proof {
            let first = f.wall(0).output;
            assert(first.fits_i32());
            assert(i32::MIN <= first.lo[axis as int] <= i32::MAX);
            assert(i32::MIN <= first.hi[axis as int] <= i32::MAX);
            assert(f.output.lo[axis as int] == lo);
            assert(f.output.hi[axis as int] == hi);
        }
        let n: i64 = self.steps as i64;
        let mut result: Vec<APFrustrum<GRID_DIMENSION>> = Vec::new();
        let mut outer_aabb = self.output_aabb;
        let mut remainder = self.output_aabb;
        match self.side {
            Side::Min => {
                outer_aabb.bounds[axis] = [lo, (lo as i64 + (n - 1)) as i32];
            },
            Side::Max => {
                outer_aabb.bounds[axis] = [(hi as i64 - (n - 1)) as i32, hi];
            },
        }
        proof {
            assert(outer_aabb@.lo =~= f.wall(0).output.lo);
            assert(outer_aabb@.hi =~= f.wall(0).output.hi);
        }
        result.push(APFrustrum::new(outer_aabb, axis, self.side, self.steps));
        if axis + 1 < GRID_DIMENSION {
            proof {
                let next = f.wall(1).output;
                assert(next.fits_i32());
                assert(i32::MIN <= next.lo[axis as int] <= i32::MAX);
                assert(i32::MIN <= next.hi[axis as int] <= i32::MAX);
            }
            match self.side {
                Side::Min => {
                    remainder.bounds[axis] = [(lo as i64 + n) as i32, hi];
                },
                Side::Max => {
                    remainder.bounds[axis] = [lo, (hi as i64 - n) as i32];
                },
            }
            proof {
                assert(remainder@.lo =~= f.remainder(axis + 1).lo);
                assert(remainder@.hi =~= f.remainder(axis + 1).hi);
            }
        }
        let mut d: usize = axis + 1;
        while d < GRID_DIMENSION
            invariant
                axis < d <= GRID_DIMENSION,
                axis == self.recursion_dimension,
                f == self@,
                n == self.steps,
                forall|i: int| 0 <= i < f.wall_count() ==> (#[trigger] f.wall(i)).output.fits_i32(),
                result@.len() == 1 + 2 * (d - axis - 1),
                forall|i: int| 0 <= i < result@.len() ==> (#[trigger] result[i])@ == f.wall(i),
                d < GRID_DIMENSION ==> remainder@ == f.remainder(d as int),
            decreases GRID_DIMENSION - d,
        {
            let ghost at = 1 + 2 * (d - axis - 1);
            let low = remainder.bounds[d][0];
            let high = remainder.bounds[d][1];
            proof {
                assert(f.wall(at) == f.side_wall(d as int, Side::Min));
                assert(f.wall(at + 1) == f.side_wall(d as int, Side::Max));
                let below = f.wall(at).output;
                let above = f.wall(at + 1).output;
                assert(below.fits_i32());
                assert(above.fits_i32());
                assert(i32::MIN <= below.hi[d as int] <= i32::MAX);
                assert(i32::MIN <= above.lo[d as int] <= i32::MAX);
                assert(remainder@.lo[d as int] == low);
                assert(remainder@.hi[d as int] == high);
            }
            let mut min_aabb = remainder;
            min_aabb.bounds[d] = [low, (low as i64 + (n - 1)) as i32];
            let mut max_aabb = remainder;
            max_aabb.bounds[d] = [(high as i64 - (n - 1)) as i32, high];
            proof {
                assert(min_aabb@.lo =~= f.wall(at).output.lo);
                assert(min_aabb@.hi =~= f.wall(at).output.hi);
                assert(max_aabb@.lo =~= f.wall(at + 1).output.lo);
                assert(max_aabb@.hi =~= f.wall(at + 1).output.hi);
            }
            result.push(APFrustrum::new(min_aabb, d, Side::Min, self.steps));
            result.push(APFrustrum::new(max_aabb, d, Side::Max, self.steps));
            if d + 1 < GRID_DIMENSION {
                proof {
                    assert(f.wall(at + 2) == f.side_wall(d + 1, Side::Min));
                    let next = f.wall(at + 2).output;
                    assert(next.fits_i32());
                    assert(i32::MIN <= next.lo[d as int] <= i32::MAX);
                    assert(i32::MIN <= next.hi[d as int] <= i32::MAX);
                }
                let ghost before = remainder@;
                remainder.bounds[d] = [(low as i64 + n) as i32, (high as i64 - n) as i32];
                proof {
                    assert forall|e: int| 0 <= e < GRID_DIMENSION implies remainder@.lo[e]
                        == f.remainder(d + 1).lo[e] && remainder@.hi[e] == f.remainder(d + 1).hi[e] by {
                        if e != d {
                            assert(remainder@.lo[e] == before.lo[e]);
                            assert(remainder@.hi[e] == before.hi[e]);
                        } else {
                            assert(before.lo[e] == f.output.lo[e]);
                            assert(before.hi[e] == f.output.hi[e]);
                        }
                    }
                    assert(remainder@.lo =~= f.remainder(d + 1).lo);
                    assert(remainder@.hi =~= f.remainder(d + 1).hi);
                }
            }
            d += 1;
        }
        result
    }

    /// Keep the frustrum inside the grid.  Where its input region reaches
    /// past a face of `global_aabb`, that face can bring no input: if there is
    /// such a face, the frustrum loses one step and the mask of the faces
    /// that remain sloped is returned.  Otherwise nothing changes.
    pub fn out_of_bounds_cut(
        &mut self,
        stencil_slopes: &Bounds<GRID_DIMENSION>,
        global_aabb: &AABB<GRID_DIMENSION>,
    ) -> (r: Option<Bounds<GRID_DIMENSION>>)
        requires
            old(self).recursion_dimension < GRID_DIMENSION,
            old(self).steps >= 1,
        ensures
            r is Some <==> !global_aabb@.encloses(old(self)@.input(faces(*stencil_slopes))),
            r is Some ==> faces(r->0) == Frustrum::trimmed(
                old(self)@.sloped(),
                old(self)@.input(faces(*stencil_slopes)),
                global_aabb@,
            ),
            r is Some ==> final(self).steps == old(self).steps - 1,
            r is None ==> final(self).steps == old(self).steps,
            final(self).output_aabb == old(self).output_aabb,
            final(self).recursion_dimension == old(self).recursion_dimension,
            final(self).side == old(self).side,
    {
        let ghost f = self@;
        let ghost slopes = faces(*stencil_slopes);
        let ghost input = f.input(slopes);
        let ghost limit = global_aabb@;
        let ghost goal = Frustrum::trimmed(f.sloped(), input, limit);
        let sloped_sides = self.sloped_sides();
        let mut remainder_slopes = sloped_sides;
        let mut out_of_bounds = false;
        let mut d: usize = 0;
        while d < GRID_DIMENSION
            invariant
                d <= GRID_DIMENSION,
                f == self@,
                slopes == faces(*stencil_slopes),
                input == f.input(slopes),
                limit == global_aabb@,
                goal == Frustrum::trimmed(f.sloped(), input, limit),
                faces(sloped_sides) == f.sloped(),
                forall|e: int|
                    0 <= e < d ==> remainder_slopes[e][0] == goal.lo[e] && remainder_slopes[e][1]
                        == goal.hi[e],
                forall|e: int| d <= e < GRID_DIMENSION ==> remainder_slopes[e] == sloped_sides[e],
                !out_of_bounds ==> forall|e: int|
                    0 <= e < d ==> limit.lo[e] <= #[trigger] input.lo[e],
                !out_of_bounds ==> forall|e: int|
                    0 <= e < d ==> #[trigger] input.hi[e] <= limit.hi[e],
                out_of_bounds ==> !limit.encloses(input),
            decreases GRID_DIMENSION - d,
        {
            let down = face_travel(stencil_slopes[d][0], sloped_sides[d][0], self.steps);
            let up = face_travel(stencil_slopes[d][1], sloped_sides[d][1], self.steps);
            let low: i128 = self.output_aabb.bounds[d][0] as i128 - down;
            let high: i128 = self.output_aabb.bounds[d][1] as i128 + up;
            proof {
                let per_step = slopes.times(f.sloped());
                assert(f.sloped().lo[d as int] == sloped_sides[d as int][0]);
                assert(f.sloped().hi[d as int] == sloped_sides[d as int][1]);
                assert(per_step.lo[d as int] == stencil_slopes[d as int][0]
                    * sloped_sides[d as int][0]);
                assert(per_step.hi[d as int] == stencil_slopes[d as int][1]
                    * sloped_sides[d as int][1]);
                assert(input.lo[d as int] == low);
                assert(input.hi[d as int] == high);
                assert(limit.lo[d as int] == global_aabb.bounds[d as int][0]);
                assert(limit.hi[d as int] == global_aabb.bounds[d as int][1]);
            }
            let mut row = sloped_sides[d];
            if low < global_aabb.bounds[d][0] as i128 {
                row[0] = 0;
                out_of_bounds = true;
            }
            if high > global_aabb.bounds[d][1] as i128 {
                row[1] = 0;
                out_of_bounds = true;
            }
            remainder_slopes[d] = row;
            d += 1;
        }
        proof {
            assert(faces(remainder_slopes).lo =~= goal.lo);
            assert(faces(remainder_slopes).hi =~= goal.hi);
        }
        if out_of_bounds {
            self.steps -= 1;
            Some(remainder_slopes)
        } else {
            None
        }
    }
}

/// The frustrums that fill what a periodic solve over `input` leaves open
/// when it is valid on `output`: one for each slab that is cut around
/// `output`, first the two slabs of the first axis, the lower one before the
/// upper one, then those of the next axis, and so on.  Each takes `steps`
/// steps.
pub fn boundary_frustrums<const GRID_DIMENSION: usize>(
    input: &AABB<GRID_DIMENSION>,
    output: &AABB<GRID_DIMENSION>,
    steps: usize,
) -> (r: Vec<APFrustrum<GRID_DIMENSION>>)
    requires
        forall|d: int| 0 <= d < GRID_DIMENSION ==> i32::MIN < #[trigger] output@.lo[d],
        forall|d: int| 0 <= d < GRID_DIMENSION ==> #[trigger] output@.hi[d] < i32::MAX,
    ensures
        r@.len() == 2 * GRID_DIMENSION,
        forall|d: int|
            0 <= d < GRID_DIMENSION ==> (#[trigger] r[2 * d])@ == Frustrum::beside(
                input@,
                output@,
                d,
                Side::Min,
                steps as int,
            ) && r[2 * d + 1]@ == Frustrum::beside(input@, output@, d, Side::Max, steps as int),
{
    let decomposition = input.decomposition(output);
    let mut result: Vec<APFrustrum<GRID_DIMENSION>> = Vec::new();
    let mut d: usize = 0;
    while d < GRID_DIMENSION
        invariant
            d <= GRID_DIMENSION,
            forall|e: int|
                0 <= e < GRID_DIMENSION ==> (#[trigger] decomposition[e])[0]@ == input@.slab(
                    output@,
                    e,
                    false,
                ) && decomposition[e][1]@ == input@.slab(output@, e, true),
            result@.len() == 2 * d,
            forall|e: int|
                0 <= e < d ==> (#[trigger] result[2 * e])@ == Frustrum::beside(
                    input@,
                    output@,
                    e,
                    Side::Min,
                    steps as int,
                ) && result[2 * e + 1]@ == Frustrum::beside(
                    input@,
                    output@,
                    e,
                    Side::Max,
                    steps as int,
                ),
        decreases GRID_DIMENSION - d,
    {
        let slabs = decomposition[d];
        assert(decomposition[d as int][0]@ == input@.slab(output@, d as int, false));
        result.push(APFrustrum::new(slabs[0], d, Side::Min, steps));
        result.push(APFrustrum::new(slabs[1], d, Side::Max, steps));
        d += 1;
    }
    result
}

} // verus!
