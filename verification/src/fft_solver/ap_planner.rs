use vstd::prelude::*;
use crate::error::SolveError;
use crate::fft_solver::ap_frustrum::{boundary_frustrums, APFrustrum, Frustrum, Side};
use crate::fft_solver::ap_plan::{
    APPlan, DirectSolveNode, NodeId, OpId, PeriodicSolveNode, PlanNode, RepeatNode,
};
use crate::fft_solver::descent::{slopes_inward, unit_slopes};
use crate::fft_solver::plan_regions::direct_ready;
use crate::solver::trapezoid::{face_travel, trapezoid_input_region, trapezoid_output_region};
use crate::util::aabb::AABB;
use crate::util::faces::{faces, Bounds, Faces};

verus! {

/// A periodic solve of `steps` steps over `grid` can be planned with walls
/// that are solved directly: the grid can be stored and stays clear of both
/// ends of the `i32` range, no stencil slope is negative, at least one step
/// is taken, and the region that the periodic solve gets right is a box.
pub open spec fn round_fits(grid: Faces, stencil_slopes: Faces, steps: int) -> bool {
    &&& grid.lo.len() >= 1
    &&& grid.shaped(grid.lo.len())
    &&& stencil_slopes.shaped(grid.lo.len())
    &&& grid.storable()
    &&& forall|d: int| 0 <= d < grid.lo.len() ==> i32::MIN < #[trigger] grid.lo[d]
    &&& forall|d: int| 0 <= d < grid.lo.len() ==> #[trigger] grid.hi[d] < i32::MAX
    &&& slopes_inward(stencil_slopes)
    &&& steps >= 1
    &&& grid.shrunk(stencil_slopes, steps).valid()
}

/// The direct solve `n` fills the slab that peeling axis `d` leaves on `side`
/// of the region that a periodic solve over `grid` gets right after `steps`
/// steps, and that slab holds a cell.
pub open spec fn wall_of<const GRID_DIMENSION: usize>(
    n: DirectSolveNode<GRID_DIMENSION>,
    grid: Faces,
    stencil_slopes: Faces,
    steps: int,
    d: int,
    side: Side,
) -> bool {
    let f = Frustrum::beside(grid, grid.shrunk(stencil_slopes, steps), d, side, steps);
    &&& 0 <= d < grid.lo.len()
    &&& n.output_aabb@ == f.output
    &&& n.output_aabb@.valid()
    &&& n.input_aabb@ == f.reads(stencil_slopes)
    &&& faces(n.sloped_sides) == f.inward()
    &&& n.steps == steps
}

/// `node` is a direct solve that fills one of the slabs around the region
/// that a periodic solve over `grid` gets right.
pub open spec fn is_wall<const GRID_DIMENSION: usize>(
    node: PlanNode<GRID_DIMENSION>,
    grid: Faces,
    stencil_slopes: Faces,
    steps: int,
) -> bool {
    node is DirectSolve && exists|d: int, side: Side| #[trigger]
        wall_of(node->DirectSolve_0, grid, stencil_slopes, steps, d, side)
}

/// Among the nodes `first..at` is the direct solve that fills the slab on
/// `side` of axis `d`.
pub open spec fn has_wall<const GRID_DIMENSION: usize>(
    nodes: Seq<PlanNode<GRID_DIMENSION>>,
    first: int,
    at: int,
    grid: Faces,
    stencil_slopes: Faces,
    steps: int,
    d: int,
    side: Side,
) -> bool {
    exists|j: int|
        first <= j < at && nodes[j] is DirectSolve && #[trigger] wall_of(
            nodes[j]->DirectSolve_0,
            grid,
            stencil_slopes,
            steps,
            d,
            side,
        )
}

/// The place of a slab in the order in which the slabs are cut.
pub open spec fn slot(d: int, side: Side) -> int {
    2 * d + if side == Side::Min {
        0int
    } else {
        1int
    }
}

/// The nodes `first..=at` are one round: walls that are solved directly,
/// one for every slab that holds a cell, followed by the periodic solve over
/// `grid` that they belong to.
pub open spec fn round_at<const GRID_DIMENSION: usize>(
    nodes: Seq<PlanNode<GRID_DIMENSION>>,
    first: int,
    at: int,
    grid: AABB<GRID_DIMENSION>,
    stencil_slopes: Faces,
    steps: usize,
    convolution_id: OpId,
) -> bool {
    &&& 0 <= first <= at < nodes.len()
    &&& forall|i: int| first <= i < at ==> is_wall(#[trigger] nodes[i], grid@, stencil_slopes, steps as int)
    &&& forall|d: int, side: Side|
        0 <= d < grid@.lo.len() && Frustrum::beside(
            grid@,
            grid@.shrunk(stencil_slopes, steps as int),
            d,
            side,
            steps as int,
        ).output.valid() ==> #[trigger] has_wall(
            nodes,
            first,
            at,
            grid@,
            stencil_slopes,
            steps as int,
            d,
            side,
        )
    &&& nodes[at] is PeriodicSolve
    &&& ({
        let n = nodes[at]->PeriodicSolve_0;
        &&& n.input_aabb == grid
        &&& n.output_aabb@ == grid@.shrunk(stencil_slopes, steps as int)
        &&& n.convolution_id == convolution_id
        &&& n.steps == steps
        &&& n.boundary_nodes.start == first
        &&& n.boundary_nodes.end == at
        &&& n.time_cut is None
    })
}

/// A wall that is among the nodes `first..at` of `a` is among the nodes
/// `first..up_to` of every sequence that agrees with `a` on `first..at`.
proof fn lemma_wall_kept<const GRID_DIMENSION: usize>(
    a: Seq<PlanNode<GRID_DIMENSION>>,
    b: Seq<PlanNode<GRID_DIMENSION>>,
    first: int,
    at: int,
    up_to: int,
    grid: Faces,
    stencil_slopes: Faces,
    steps: int,
    d: int,
    side: Side,
)
    requires
        has_wall(a, first, at, grid, stencil_slopes, steps, d, side),
        at <= up_to,
        forall|j: int| first <= j < at ==> b[j] == a[j],
    ensures
        has_wall(b, first, up_to, grid, stencil_slopes, steps, d, side),
{
    let j = choose|j: int|
        first <= j < at && a[j] is DirectSolve && #[trigger] wall_of(
            a[j]->DirectSolve_0,
            grid,
            stencil_slopes,
            steps,
            d,
            side,
        );
    assert(b[j] == a[j]);
    assert(wall_of(b[j]->DirectSolve_0, grid, stencil_slopes, steps, d, side));
}

/// A round of `a` is a round of every sequence that agrees with `a` on it.
proof fn lemma_round_kept<const GRID_DIMENSION: usize>(
    a: Seq<PlanNode<GRID_DIMENSION>>,
    b: Seq<PlanNode<GRID_DIMENSION>>,
    first: int,
    at: int,
    grid: AABB<GRID_DIMENSION>,
    stencil_slopes: Faces,
    steps: usize,
    convolution_id: OpId,
)
    requires
        round_at(a, first, at, grid, stencil_slopes, steps, convolution_id),
        at < b.len(),
        forall|j: int| first <= j <= at ==> b[j] == a[j],
    ensures
        round_at(b, first, at, grid, stencil_slopes, steps, convolution_id),
{
    assert forall|i: int| first <= i < at implies is_wall(
        #[trigger] b[i],
        grid@,
        stencil_slopes,
        steps as int,
    ) by {
        assert(b[i] == a[i]);
        assert(is_wall(a[i], grid@, stencil_slopes, steps as int));
    }
    assert forall|d: int, side: Side|
        0 <= d < grid@.lo.len() && Frustrum::beside(
            grid@,
            grid@.shrunk(stencil_slopes, steps as int),
            d,
            side,
            steps as int,
        ).output.valid() implies #[trigger] has_wall(
        b,
        first,
        at,
        grid@,
        stencil_slopes,
        steps as int,
        d,
        side,
    ) by {
        assert(has_wall(a, first, at, grid@, stencil_slopes, steps as int, d, side));
        lemma_wall_kept(a, b, first, at, at, grid@, stencil_slopes, steps as int, d, side);
    }
    assert(b[at] == a[at]);
}

/// A round leaves no cell of the grid out: the periodic solve gets it right,
/// or one of the walls fills it.
pub proof fn lemma_round_covers<const GRID_DIMENSION: usize>(
    nodes: Seq<PlanNode<GRID_DIMENSION>>,
    first: int,
    at: int,
    grid: AABB<GRID_DIMENSION>,
    stencil_slopes: Faces,
    steps: usize,
    convolution_id: OpId,
    p: Seq<int>,
)
    requires
        round_fits(grid@, stencil_slopes, steps as int),
        round_at(nodes, first, at, grid, stencil_slopes, steps, convolution_id),
        grid@.contains(p),
    ensures
        (nodes[at]->PeriodicSolve_0).output_aabb@.contains(p) || exists|j: int|
            first <= j < at && (#[trigger] nodes[j]) is DirectSolve && (
            nodes[j]->DirectSolve_0).output_aabb@.contains(p),
{
    let whole = grid@;
    let center = whole.shrunk(stencil_slopes, steps as int);
    whole.lemma_shrunk_inside(stencil_slopes, steps as int, steps as int);
    whole.lemma_decomposition_partitions(center);
    assert(whole.points().contains(p));
    if !center.contains(p) {
        assert(whole.slab_points(center).contains(p));
        let (d, upper) = choose|d: int, upper: bool|
            0 <= d < whole.lo.len() && #[trigger] whole.slab(center, d, upper).contains(p);
        let side = if upper {
            Side::Max
        } else {
            Side::Min
        };
        let slab = whole.slab(center, d, upper);
        assert(Frustrum::beside(whole, center, d, side, steps as int).output == slab);
        assert forall|e: int| 0 <= e < slab.lo.len() implies slab.lo[e] <= slab.hi[e] by {
            assert(slab.lo[e] <= p[e] <= slab.hi[e]);
        }
        assert(has_wall(nodes, first, at, whole, stencil_slopes, steps as int, d, side));
        let j = choose|j: int|
            first <= j < at && nodes[j] is DirectSolve && #[trigger] wall_of(
                nodes[j]->DirectSolve_0,
                whole,
                stencil_slopes,
                steps as int,
                d,
                side,
            );
        assert((nodes[j]->DirectSolve_0).output_aabb@ == slab);
    }
}

/// What a wall that is solved directly gives: what it reads can be
/// stored and lies in the grid, as does the slab it fills, and its steps lead
/// from the one to the other.
pub proof fn lemma_wall_sound<const GRID_DIMENSION: usize>(
    n: DirectSolveNode<GRID_DIMENSION>,
    grid: Faces,
    stencil_slopes: Faces,
    steps: int,
    d: int,
    side: Side,
)
    requires
        round_fits(grid, stencil_slopes, steps),
        grid.fits_i32(),
        wall_of(n, grid, stencil_slopes, steps, d, side),
    ensures
        n.input_aabb@.storable(),
        grid.encloses(n.input_aabb@),
        grid.encloses(n.output_aabb@),
        direct_ready(n.input_aabb@, stencil_slopes.times(faces(n.sloped_sides)), steps),
        n.output_aabb@ == n.input_aabb@.shrunk(stencil_slopes.times(faces(n.sloped_sides)), steps),
{
    let center = grid.shrunk(stencil_slopes, steps);
    let f = Frustrum::beside(grid, center, d, side, steps);
    let per_step = stencil_slopes.times(f.inward());
    let input = n.input_aabb@;
    let output = n.output_aabb@;
    Frustrum::lemma_beside_reads_inside(grid, stencil_slopes, steps, d, side);
    output.lemma_shrunk_undoes_grown(per_step, steps);
    assert forall|e: int| 0 <= e < grid.lo.len() implies 0 <= #[trigger] per_step.lo[e] by {
        let x = stencil_slopes.lo[e];
        let a = f.inward().lo[e];
        assert(0 <= x);
        assert(0 <= x * a) by (nonlinear_arith)
            requires
                0 <= x,
                a == 0 || a == 1,
        ;
    }
    assert forall|e: int| 0 <= e < grid.lo.len() implies 0 <= #[trigger] per_step.hi[e] by {
        let y = stencil_slopes.hi[e];
        let b = f.inward().hi[e];
        assert(0 <= y);
        assert(0 <= y * b) by (nonlinear_arith)
            requires
                0 <= y,
                b == 0 || b == 1,
        ;
    }
    assert forall|e: int| 0 <= e < input.lo.len() implies input.lo[e] <= input.hi[e] by {
        let x = per_step.lo[e];
        let y = per_step.hi[e];
        assert(0 <= x && 0 <= y);
        assert(output.lo[e] <= output.hi[e]);
        assert(0 <= steps * x && 0 <= steps * y) by (nonlinear_arith)
            requires
                0 <= steps,
                0 <= x,
                0 <= y,
        ;
    }
    grid.lemma_inner_storable(input);
    assert forall|e: int| 0 <= e < grid.lo.len() implies grid.lo[e] <= #[trigger] output.lo[e] by {
        assert(center.lo[e] <= center.hi[e]);
        grid.lemma_shrunk_inside(stencil_slopes, steps, steps);
        assert(grid.lo[e] <= center.lo[e]);
    }
    assert forall|e: int| 0 <= e < grid.hi.len() implies #[trigger] output.hi[e] <= grid.hi[e] by {
        assert(center.lo[e] <= center.hi[e]);
        grid.lemma_shrunk_inside(stencil_slopes, steps, steps);
        assert(center.hi[e] <= grid.hi[e]);
    }
}

/// Whether a periodic solve of `steps` steps over `grid` can be planned with
/// walls that are solved directly.
pub fn check_round<const GRID_DIMENSION: usize>(
    grid: &AABB<GRID_DIMENSION>,
    stencil_slopes: &Bounds<GRID_DIMENSION>,
    steps: usize,
) -> (r: bool)
    ensures
        r == round_fits(grid@, faces(*stencil_slopes), steps as int),
{
    if GRID_DIMENSION < 1 || steps < 1 || !grid.is_storable() {
        return false;
    }
    let ghost slopes = faces(*stencil_slopes);
    let ghost center = grid@.shrunk(slopes, steps as int);
    let mut d: usize = 0;
    while d < GRID_DIMENSION
        invariant
            d <= GRID_DIMENSION,
            slopes == faces(*stencil_slopes),
            center == grid@.shrunk(slopes, steps as int),
            forall|e: int| 0 <= e < d ==> i32::MIN < #[trigger] grid@.lo[e],
            forall|e: int| 0 <= e < d ==> #[trigger] grid@.hi[e] < i32::MAX,
            forall|e: int| 0 <= e < d ==> 0 <= #[trigger] slopes.lo[e],
            forall|e: int| 0 <= e < d ==> 0 <= #[trigger] slopes.hi[e],
            forall|e: int| 0 <= e < d ==> center.lo[e] <= center.hi[e],
        decreases GRID_DIMENSION - d,
    {
        let up = face_travel(stencil_slopes[d][0], 1, steps);
        let down = face_travel(stencil_slopes[d][1], 1, steps);
        let lo: i128 = grid.bounds[d][0] as i128 + up;
        let hi: i128 = grid.bounds[d][1] as i128 - down;
        proof {
            assert(slopes.lo[d as int] == stencil_slopes[d as int][0]);
            assert(slopes.hi[d as int] == stencil_slopes[d as int][1]);
            assert(center.lo[d as int] == lo);
            assert(center.hi[d as int] == hi);
        }
        if grid.bounds[d][0] == i32::MIN || grid.bounds[d][1] == i32::MAX {
            assert(!(i32::MIN < grid@.lo[d as int]) || !(grid@.hi[d as int] < i32::MAX));
            return false;
        }
        if stencil_slopes[d][0] < 0 || stencil_slopes[d][1] < 0 {
            assert(!(0 <= slopes.lo[d as int]) || !(0 <= slopes.hi[d as int]));
            return false;
        }
        if lo > hi {
            return false;
        }
        d += 1;
    }
    true
}

/// The region that a periodic solve of `steps` steps over `grid` gets right:
/// every face of the grid moved inward by its stencil slope once per step.
pub fn round_output<const GRID_DIMENSION: usize>(
    grid: &AABB<GRID_DIMENSION>,
    stencil_slopes: &Bounds<GRID_DIMENSION>,
    steps: usize,
) -> (r: AABB<GRID_DIMENSION>)
    requires
        round_fits(grid@, faces(*stencil_slopes), steps as int),
    ensures
        r@ == grid@.shrunk(faces(*stencil_slopes), steps as int),
        r@.storable(),
        grid@.encloses(r@),
{
    let ghost slopes = faces(*stencil_slopes);
    let both: [i32; 2] = [1i32; 2];
    let every_face: Bounds<GRID_DIMENSION> = [both; GRID_DIMENSION];
    proof {
        let center = grid@.shrunk(slopes, steps as int);
        assert forall|d: int| 0 <= d < GRID_DIMENSION implies every_face[d][0] == 1 && every_face[d][1]
            == 1 by {
            assert(every_face[d] == both);
            assert(both[0] == 1 && both[1] == 1);
        }
        assert forall|d: int| 0 <= d < GRID_DIMENSION implies #[trigger] slopes.times(
            faces(every_face),
        ).lo[d] == slopes.lo[d] && slopes.times(faces(every_face)).hi[d] == slopes.hi[d] by {
            assert(faces(every_face).lo[d] == 1);
            assert(faces(every_face).hi[d] == 1);
        }
        assert(slopes.times(faces(every_face)).lo =~= slopes.lo);
        assert(slopes.times(faces(every_face)).hi =~= slopes.hi);
        grid@.lemma_shrunk_inside(slopes, steps as int, steps as int);
        grid@.lemma_inner_storable(center);
    }
    trapezoid_output_region(steps, grid, &every_face, stencil_slopes)
}

/// Mask of the faces through which a wall reads: the face opposite to its
/// side along its axis and both faces of every earlier axis.
pub fn wall_sides<const GRID_DIMENSION: usize>(frustrum: &APFrustrum<GRID_DIMENSION>) -> (r: Bounds<
    GRID_DIMENSION,
>)
    requires
        frustrum.recursion_dimension < GRID_DIMENSION,
    ensures
        faces(r) == frustrum@.inward(),
{
    let mut r: Bounds<GRID_DIMENSION> = [[1i32; 2]; GRID_DIMENSION];
    let at: i32 = match frustrum.side {
        Side::Min => 0,
        Side::Max => 1,
    };
    r[frustrum.recursion_dimension] = [at, 1 - at];
    let mut d: usize = frustrum.recursion_dimension + 1;
    while d < GRID_DIMENSION
        invariant
            frustrum.recursion_dimension < d <= GRID_DIMENSION,
            forall|e: int| 0 <= e < frustrum.recursion_dimension ==> r[e][0] == 1 && r[e][1] == 1,
            r[frustrum.recursion_dimension as int][0] == at,
            r[frustrum.recursion_dimension as int][1] == 1 - at,
            forall|e: int| frustrum.recursion_dimension < e < d ==> r[e][0] == 0 && r[e][1] == 0,
        decreases GRID_DIMENSION - d,
    {
        r[d] = [0, 0];
        d += 1;
    }
    assert(faces(r).lo =~= frustrum@.inward().lo);
    assert(faces(r).hi =~= frustrum@.inward().hi);
    r
}

/// What a wall reads: its slab with every face of [`wall_sides`] moved
/// outward by `steps` times its stencil slope.
pub fn wall_input<const GRID_DIMENSION: usize>(
    frustrum: &APFrustrum<GRID_DIMENSION>,
    stencil_slopes: &Bounds<GRID_DIMENSION>,
) -> (r: AABB<GRID_DIMENSION>)
    requires
        frustrum.recursion_dimension < GRID_DIMENSION,
        frustrum@.reads(faces(*stencil_slopes)).fits_i32(),
    ensures
        r@ == frustrum@.reads(faces(*stencil_slopes)),
{
    let sides = wall_sides(frustrum);
    trapezoid_input_region(frustrum.steps, &frustrum.output_aabb, &sides, stencil_slopes)
}

/// Add one round to `nodes`: a direct solve for every slab around the region
/// that a periodic solve of `steps` steps over `grid` gets right, unless the
/// slab holds no cell, and then the periodic solve itself, whose place is
/// handed back.
pub fn push_round<const GRID_DIMENSION: usize>(
    nodes: &mut Vec<PlanNode<GRID_DIMENSION>>,
    grid: &AABB<GRID_DIMENSION>,
    stencil_slopes: &Bounds<GRID_DIMENSION>,
    steps: usize,
    convolution_id: OpId,
) -> (r: NodeId)
    requires
        round_fits(grid@, faces(*stencil_slopes), steps as int),
    ensures
        final(nodes)@.len() == r + 1,
        old(nodes)@.len() <= r,
        forall|i: int| 0 <= i < old(nodes)@.len() ==> final(nodes)@[i] == old(nodes)@[i],
        round_at(
            final(nodes)@,
            old(nodes)@.len() as int,
            r as int,
            *grid,
            faces(*stencil_slopes),
            steps,
            convolution_id,
        ),
{
    let ghost slopes = faces(*stencil_slopes);
    let ghost before = nodes@;
    let output = round_output(grid, stencil_slopes, steps);
    let first = nodes.len();
    proof {
        assert forall|d: int| 0 <= d < GRID_DIMENSION implies i32::MIN < #[trigger] output@.lo[d] by {
            assert(grid@.lo[d] <= output@.lo[d]);
            assert(i32::MIN < grid@.lo[d]);
        }
        assert forall|d: int| 0 <= d < GRID_DIMENSION implies #[trigger] output@.hi[d] < i32::MAX by {
            assert(output@.hi[d] <= grid@.hi[d]);
            assert(grid@.hi[d] < i32::MAX);
        }
    }
    let frustrums = boundary_frustrums(grid, &output, steps);
    let mut i: usize = 0;
    while i < frustrums.len()
        invariant
            i <= frustrums@.len(),
            frustrums@.len() == 2 * GRID_DIMENSION,
            round_fits(grid@, slopes, steps as int),
            slopes == faces(*stencil_slopes),
            output@ == grid@.shrunk(slopes, steps as int),
            forall|d: int|
                0 <= d < GRID_DIMENSION ==> (#[trigger] frustrums[2 * d])@ == Frustrum::beside(
                    grid@,
                    output@,
                    d,
                    Side::Min,
                    steps as int,
                ) && frustrums[2 * d + 1]@ == Frustrum::beside(
                    grid@,
                    output@,
                    d,
                    Side::Max,
                    steps as int,
                ),
            before == old(nodes)@,
            first == before.len(),
            first <= nodes@.len(),
            forall|j: int| 0 <= j < first ==> nodes@[j] == before[j],
            forall|j: int| first <= j < nodes@.len() ==> is_wall(#[trigger] nodes@[j], grid@, slopes, steps as int),
            forall|e: int, side: Side|
                0 <= e < GRID_DIMENSION && slot(e, side) < i && Frustrum::beside(
                    grid@,
                    output@,
                    e,
                    side,
                    steps as int,
                ).output.valid() ==> #[trigger] has_wall(
                    nodes@,
                    first as int,
                    nodes@.len() as int,
                    grid@,
                    slopes,
                    steps as int,
                    e,
                    side,
                ),
        decreases frustrums@.len() - i,
    {
        let frustrum = &frustrums[i];
        let ghost d = i as int / 2;
        let ghost side = if i % 2 == 0 {
            Side::Min
        } else {
            Side::Max
        };
        proof {
            assert(frustrums[2 * d]@ == Frustrum::beside(grid@, output@, d, Side::Min, steps as int));
            assert(frustrum@ == Frustrum::beside(grid@, output@, d, side, steps as int));
        }
        if frustrum.output_aabb.check_validity() {
            proof {
                Frustrum::lemma_beside_reads_inside(grid@, slopes, steps as int, d, side);
                let read = frustrum@.reads(slopes);
                assert forall|e: int| 0 <= e < read.lo.len() implies i32::MIN <= #[trigger] read.lo[e]
                    <= i32::MAX by {
                    assert(grid@.lo[e] <= read.lo[e]);
                    assert(read.lo[e] <= read.hi[e]) by {
                        lemma_grown_valid(frustrum@, slopes, e);
                    }
                    assert(read.hi[e] <= grid@.hi[e]);
                }
                assert forall|e: int| 0 <= e < read.hi.len() implies i32::MIN <= #[trigger] read.hi[e]
                    <= i32::MAX by {
                    assert(grid@.lo[e] <= read.lo[e]);
                    assert(read.lo[e] <= read.hi[e]) by {
                        lemma_grown_valid(frustrum@, slopes, e);
                    }
                    assert(read.hi[e] <= grid@.hi[e]);
                }
            }
            let node = DirectSolveNode {
                input_aabb: wall_input(frustrum, stencil_slopes),
                output_aabb: frustrum.output_aabb,
                sloped_sides: wall_sides(frustrum),
                steps,
            };
            proof {
                assert(wall_of(node, grid@, slopes, steps as int, d, side));
            }
            let ghost held = nodes@;
            nodes.push(PlanNode::DirectSolve(node));
            proof {
                assert forall|j: int| first <= j < nodes@.len() implies is_wall(
                    #[trigger] nodes@[j],
                    grid@,
                    slopes,
                    steps as int,
                ) by {
                    if j < held.len() {
                        assert(nodes@[j] == held[j]);
                    } else {
                        assert(nodes@[j]->DirectSolve_0 == node);
                    }
                }
                assert forall|e: int, other: Side|
                    0 <= e < GRID_DIMENSION && slot(e, other) < i + 1 && Frustrum::beside(
                        grid@,
                        output@,
                        e,
                        other,
                        steps as int,
                    ).output.valid() implies #[trigger] has_wall(
                    nodes@,
                    first as int,
                    nodes@.len() as int,
                    grid@,
                    slopes,
                    steps as int,
                    e,
                    other,
                ) by {
                    if slot(e, other) < i {
                        lemma_wall_kept(
                            held,
                            nodes@,
                            first as int,
                            held.len() as int,
                            nodes@.len() as int,
                            grid@,
                            slopes,
                            steps as int,
                            e,
                            other,
                        );
                    } else {
                        assert(e == d && other == side);
                        assert(nodes@[held.len() as int]->DirectSolve_0 == node);
                        assert(wall_of(
                            nodes@[held.len() as int]->DirectSolve_0,
                            grid@,
                            slopes,
                            steps as int,
                            e,
                            other,
                        ));
                    }
                }
            }
        } else {
            proof {
                assert forall|e: int, other: Side|
                    0 <= e < GRID_DIMENSION && slot(e, other) < i + 1 && Frustrum::beside(
                        grid@,
                        output@,
                        e,
                        other,
                        steps as int,
                    ).output.valid() implies slot(e, other) < i by {
                    if slot(e, other) == i {
                        assert(e == d && other == side);
                    }
                }
            }
        }
        i += 1;
    }
    let at = nodes.len();
    let ghost held = nodes@;
    nodes.push(
        PlanNode::PeriodicSolve(
            PeriodicSolveNode {
                input_aabb: *grid,
                output_aabb: output,
                convolution_id,
                steps,
                boundary_nodes: first..at,
                time_cut: None,
            },
        ),
    );
    proof {
        assert forall|j: int| first <= j < at implies is_wall(
            #[trigger] nodes@[j],
            grid@,
            slopes,
            steps as int,
        ) by {
            assert(nodes@[j] == held[j]);
        }
        assert forall|e: int, side: Side|
            0 <= e < GRID_DIMENSION && Frustrum::beside(
                grid@,
                output@,
                e,
                side,
                steps as int,
            ).output.valid() implies #[trigger] has_wall(
            nodes@,
            first as int,
            at as int,
            grid@,
            slopes,
            steps as int,
            e,
            side,
        ) by {
            assert(slot(e, side) < 2 * GRID_DIMENSION);
            lemma_wall_kept(
                held,
                nodes@,
                first as int,
                at as int,
                at as int,
                grid@,
                slopes,
                steps as int,
                e,
                side,
            );
        }
    }
    at
}

/// Along one axis, what a frustrum reads whose output region is a box
/// reaches at least as far as the output region, for stencil slopes that
/// are not negative.
proof fn lemma_grown_valid(f: Frustrum, stencil_slopes: Faces, e: int)
    requires
        f.output.shaped(f.output.lo.len()),
        stencil_slopes.shaped(f.output.lo.len()),
        slopes_inward(stencil_slopes),
        0 <= f.steps,
        0 <= e < f.output.lo.len(),
        f.output.lo[e] <= f.output.hi[e],
    ensures
        f.reads(stencil_slopes).lo[e] <= f.output.lo[e],
        f.output.hi[e] <= f.reads(stencil_slopes).hi[e],
        f.reads(stencil_slopes).lo[e] <= f.reads(stencil_slopes).hi[e],
{
    let x = stencil_slopes.lo[e];
    let y = stencil_slopes.hi[e];
    let a = f.inward().lo[e];
    let b = f.inward().hi[e];
    let t = f.steps;
    assert(0 <= x && 0 <= y);
    assert(stencil_slopes.times(f.inward()).lo[e] == x * a);
    assert(stencil_slopes.times(f.inward()).hi[e] == y * b);
    assert(0 <= t * (x * a) && 0 <= t * (y * b)) by (nonlinear_arith)
        requires
            0 <= t,
            0 <= x,
            0 <= y,
            a == 0 || a == 1,
            b == 0 || b == 1,
    ;
}

/// The nodes are those of a plan with walls that are solved directly: one
/// round of `steps` steps, a second round of `rest` steps if `rest` is not
/// 0, and the repeat node at the root that runs the first round `n` times
/// and then the second.
pub open spec fn flat<const GRID_DIMENSION: usize>(
    plan: &APPlan<GRID_DIMENSION>,
    grid: AABB<GRID_DIMENSION>,
    stencil_slopes: Faces,
    steps: usize,
    rest: usize,
    n: usize,
) -> bool {
    let root = plan.root as int;
    &&& plan.nodes@.len() == root + 1
    &&& plan.nodes@[root] is Repeat
    &&& ({
        let repeat = plan.nodes@[root]->Repeat_0;
        let main = repeat.node as int;
        &&& repeat.n == n
        &&& round_at(plan.nodes@, 0, main, grid, stencil_slopes, steps, 0)
        &&& if rest == 0 {
            repeat.next is None && main + 1 == root
        } else {
            &&& repeat.next is Some
            &&& repeat.next->0 + 1 == root
            &&& round_at(plan.nodes@, main + 1, repeat.next->0 as int, grid, stencil_slopes, rest, 1)
        }
    })
}

/// In a plan with walls that are solved directly, every node is in order
/// and its regions fit.
proof fn lemma_flat_node<const GRID_DIMENSION: usize>(
    plan: &APPlan<GRID_DIMENSION>,
    grid: AABB<GRID_DIMENSION>,
    stencil_slopes: Faces,
    steps: usize,
    rest: usize,
    n: usize,
    k: int,
)
    requires
        flat(plan, grid, stencil_slopes, steps, rest, n),
        round_fits(grid@, stencil_slopes, steps as int),
        rest != 0 ==> round_fits(grid@, stencil_slopes, rest as int),
        0 <= k < plan.nodes@.len(),
    ensures
        plan.node_ok(k),
        plan.node_fits(stencil_slopes, k),
{
    let root = plan.root as int;
    let repeat = plan.nodes@[root]->Repeat_0;
    let main = repeat.node as int;
    let whole = grid@;
    assert(whole.fits_i32());
    let (first, at, count) = if k <= main {
        (0int, main, steps)
    } else {
        (main + 1, root - 1, rest)
    };
    if k < root {
        assert(round_at(plan.nodes@, first, at, grid, stencil_slopes, count, if k <= main {
            0usize
        } else {
            1usize
        }));
        if k < at {
            assert(is_wall(plan.nodes@[k], whole, stencil_slopes, count as int));
            let node = plan.nodes@[k]->DirectSolve_0;
            let (d, side) = choose|d: int, side: Side| #[trigger]
                wall_of(node, whole, stencil_slopes, count as int, d, side);
            lemma_wall_sound(node, whole, stencil_slopes, count as int, d, side);
        } else {
            let node = plan.nodes@[k]->PeriodicSolve_0;
            whole.lemma_shrunk_inside(stencil_slopes, count as int, count as int);
            assert forall|c: int|
                node.boundary_nodes.start <= c < node.boundary_nodes.end implies #[trigger] plan.rim_fits(
                node.input_aabb@,
                c,
            ) by {
                assert(is_wall(plan.nodes@[c], whole, stencil_slopes, count as int));
                let wall = plan.nodes@[c]->DirectSolve_0;
                let (d, side) = choose|d: int, side: Side| #[trigger]
                    wall_of(wall, whole, stencil_slopes, count as int, d, side);
                lemma_wall_sound(wall, whole, stencil_slopes, count as int, d, side);
            }
        }
    }
}

/// A plan with walls that are solved directly has the shape that a solve
/// relies on, and its regions fit together.
pub proof fn lemma_flat_plan_sound<const GRID_DIMENSION: usize>(
    plan: &APPlan<GRID_DIMENSION>,
    grid: AABB<GRID_DIMENSION>,
    stencil_slopes: Faces,
    steps: usize,
    rest: usize,
    n: usize,
)
    requires
        flat(plan, grid, stencil_slopes, steps, rest, n),
        round_fits(grid@, stencil_slopes, steps as int),
        rest != 0 ==> round_fits(grid@, stencil_slopes, rest as int),
    ensures
        plan.wf(),
        plan.fits_together(stencil_slopes),
{
    let root = plan.root as int;
    let repeat = plan.nodes@[root]->Repeat_0;
    let main = repeat.node as int;
    assert forall|k: int| 0 <= k < plan.nodes@.len() implies #[trigger] plan.node_ok(k) by {
        lemma_flat_node(plan, grid, stencil_slopes, steps, rest, n, k);
    }
    assert forall|k: int| 0 <= k < plan.nodes@.len() implies #[trigger] plan.node_fits(
        stencil_slopes,
        k,
    ) by {
        lemma_flat_node(plan, grid, stencil_slopes, steps, rest, n, k);
    }
    assert forall|above: int, other: int, c: int|
        #![trigger plan.is_child(above, c), plan.is_child(other, c)]
        plan.is_child(above, c) && plan.is_child(other, c) implies above == other by {
        lemma_flat_parent(plan, grid, stencil_slopes, steps, rest, n, above, c);
        lemma_flat_parent(plan, grid, stencil_slopes, steps, rest, n, other, c);
    }
    assert forall|c: int| 0 <= c < plan.nodes@.len() && c != plan.root implies #[trigger] plan.has_parent(
        c,
    ) by {
        let above = if c == main || (rest != 0 && c == root - 1) {
            root
        } else if c < main {
            main
        } else {
            root - 1
        };
        assert(plan.is_child(above, c));
    }
}

/// In a plan with walls that are solved directly, a node lies below the
/// periodic solve of its round, and a periodic solve lies below the root.
proof fn lemma_flat_parent<const GRID_DIMENSION: usize>(
    plan: &APPlan<GRID_DIMENSION>,
    grid: AABB<GRID_DIMENSION>,
    stencil_slopes: Faces,
    steps: usize,
    rest: usize,
    n: usize,
    above: int,
    c: int,
)
    requires
        flat(plan, grid, stencil_slopes, steps, rest, n),
        plan.is_child(above, c),
    ensures
        ({
            let root = plan.root as int;
            let main = plan.nodes@[root]->Repeat_0.node as int;
            if c == main || (rest != 0 && c == root - 1) {
                above == root
            } else if c < main {
                above == main
            } else {
                above == root - 1 && rest != 0 && main < c < root - 1
            }
        }),
{
    let root = plan.root as int;
    let main = plan.nodes@[root]->Repeat_0.node as int;
    if above < root {
        if above <= main {
            if above < main {
                assert(is_wall(plan.nodes@[above], grid@, stencil_slopes, steps as int));
            }
        } else {
            if above < root - 1 {
                assert(is_wall(plan.nodes@[above], grid@, stencil_slopes, rest as int));
            }
        }
    }
}

/// The plan that advances a field on `grid` by `total_steps` steps in rounds
/// of `steps` steps.  In each round a periodic solve covers the whole grid,
/// and every slab of the rim that it gets wrong is solved directly.  The
/// root repeats the round `total_steps / steps` times; what is left of
/// `total_steps` is taken by one shorter round of the same kind.  There is no
/// such plan, and the answer is `PlanningInfeasible`, unless the rounds are at
/// least one step and at most `total_steps` steps long and a round can be
/// planned on the grid.
pub fn plan_with_direct_walls<const GRID_DIMENSION: usize>(
    grid: AABB<GRID_DIMENSION>,
    stencil_slopes: &Bounds<GRID_DIMENSION>,
    steps: usize,
    total_steps: usize,
) -> (r: Result<APPlan<GRID_DIMENSION>, SolveError>)
    ensures
        r is Ok <==> steps <= total_steps && round_fits(
            grid@,
            faces(*stencil_slopes),
            steps as int,
        ),
        r is Err ==> r->Err_0 == SolveError::PlanningInfeasible,
        r is Ok ==> (r->Ok_0).wf() && (r->Ok_0).fits_together(faces(*stencil_slopes)) && flat(
            &(r->Ok_0),
            grid,
            faces(*stencil_slopes),
            steps,
            (total_steps % steps) as usize,
            (total_steps / steps) as usize,
        ),
{
    if steps > total_steps || !check_round(&grid, stencil_slopes, steps) {
        return Err(SolveError::PlanningInfeasible);
    }
    let ghost slopes = faces(*stencil_slopes);
    let rest = total_steps % steps;
    let mut nodes: Vec<PlanNode<GRID_DIMENSION>> = Vec::new();
    let main = push_round(&mut nodes, &grid, stencil_slopes, steps, 0);
    let ghost after_main = nodes@;
    let next = if rest > 0 {
        proof {
            grid@.lemma_shrunk_inside(slopes, rest as int, steps as int);
        }
        let second = push_round(&mut nodes, &grid, stencil_slopes, rest, 1);
        proof {
            lemma_round_kept(after_main, nodes@, 0, main as int, grid, slopes, steps, 0);
        }
        Some(second)
    } else {
        None
    };
    let root = nodes.len();
    let ghost held = nodes@;
    nodes.push(PlanNode::Repeat(RepeatNode { n: total_steps / steps, node: main, next }));
    let plan = APPlan { nodes, root };
    proof {
        assert forall|i: int| 0 <= i < held.len() implies plan.nodes@[i] == held[i] by {}
        lemma_round_kept(held, plan.nodes@, 0, main as int, grid, slopes, steps, 0);
        if rest > 0 {
            lemma_round_kept(held, plan.nodes@, main + 1, root - 1, grid, slopes, rest, 1);
        }
        assert(flat(&plan, grid, slopes, steps, rest, (total_steps / steps) as usize));
        lemma_flat_plan_sound(&plan, grid, slopes, steps, rest, (total_steps / steps) as usize);
    }
    Ok(plan)
}

/// A round of `steps` steps is allowed: it can be planned, no side of the
/// grid is shorter than `cutoff`, and the periodic solve gets at least
/// `min_cells` cells right.
pub open spec fn round_allowed(
    grid: Faces,
    stencil_slopes: Faces,
    steps: int,
    cutoff: int,
    min_cells: int,
) -> bool {
    &&& round_fits(grid, stencil_slopes, steps)
    &&& forall|d: int| 0 <= d < grid.lo.len() ==> cutoff <= #[trigger] grid.size(d)
    &&& min_cells <= grid.shrunk(stencil_slopes, steps).volume()
}

/// The longest round of at most `limit` steps that is allowed, or 0 where
/// none is.
pub open spec fn round_length(
    grid: Faces,
    stencil_slopes: Faces,
    limit: int,
    cutoff: int,
    min_cells: int,
) -> int
    decreases limit,
{
    if limit <= 0 {
        0
    } else if round_allowed(grid, stencil_slopes, limit, cutoff, min_cells) {
        limit
    } else {
        round_length(grid, stencil_slopes, limit - 1, cutoff, min_cells)
    }
}

/// `round_length` is 0 exactly where no round of 1 to `limit` steps is
/// allowed.  Otherwise it is the length of an allowed round, and no longer
/// round of at most `limit` steps is allowed.
pub proof fn lemma_round_length_longest(
    grid: Faces,
    stencil_slopes: Faces,
    limit: int,
    cutoff: int,
    min_cells: int,
)
    ensures
        0 <= round_length(grid, stencil_slopes, limit, cutoff, min_cells),
        round_length(grid, stencil_slopes, limit, cutoff, min_cells) <= limit || limit < 0,
        round_length(grid, stencil_slopes, limit, cutoff, min_cells) > 0 ==> round_allowed(
            grid,
            stencil_slopes,
            round_length(grid, stencil_slopes, limit, cutoff, min_cells),
            cutoff,
            min_cells,
        ),
        forall|k: int|
            round_length(grid, stencil_slopes, limit, cutoff, min_cells) < k <= limit && 1 <= k
                ==> !#[trigger] round_allowed(grid, stencil_slopes, k, cutoff, min_cells),
    decreases limit,
{
    if limit > 0 && !round_allowed(grid, stencil_slopes, limit, cutoff, min_cells) {
        lemma_round_length_longest(grid, stencil_slopes, limit - 1, cutoff, min_cells);
    }
}

/// Whether a round of `steps` steps is allowed.
pub fn check_round_allowed<const GRID_DIMENSION: usize>(
    grid: &AABB<GRID_DIMENSION>,
    stencil_slopes: &Bounds<GRID_DIMENSION>,
    steps: usize,
    cutoff: i32,
    min_cells: usize,
) -> (r: bool)
    ensures
        r == round_allowed(
            grid@,
            faces(*stencil_slopes),
            steps as int,
            cutoff as int,
            min_cells as int,
        ),
{
    if !check_round(grid, stencil_slopes, steps) {
        return false;
    }
    let mut d: usize = 0;
    while d < GRID_DIMENSION
        invariant
            d <= GRID_DIMENSION,
            forall|e: int| 0 <= e < d ==> cutoff <= #[trigger] grid@.size(e),
        decreases GRID_DIMENSION - d,
    {
        let size: i64 = grid.bounds[d][1] as i64 - grid.bounds[d][0] as i64 + 1;
        assert(size == grid@.size(d as int));
        if size < cutoff as i64 {
            return false;
        }
        d += 1;
    }
    let output = round_output(grid, stencil_slopes, steps);
    output.buffer_size() >= min_cells
}

/// The longest round of at most `limit` steps that is allowed, or 0 where
/// none is.
pub fn longest_round<const GRID_DIMENSION: usize>(
    grid: &AABB<GRID_DIMENSION>,
    stencil_slopes: &Bounds<GRID_DIMENSION>,
    limit: usize,
    cutoff: i32,
    min_cells: usize,
) -> (r: usize)
    ensures
        r == round_length(
            grid@,
            faces(*stencil_slopes),
            limit as int,
            cutoff as int,
            min_cells as int,
        ),
{
    let mut k: usize = limit;
    while k > 0
        invariant
            k <= limit,
            round_length(
                grid@,
                faces(*stencil_slopes),
                limit as int,
                cutoff as int,
                min_cells as int,
            ) == round_length(
                grid@,
                faces(*stencil_slopes),
                k as int,
                cutoff as int,
                min_cells as int,
            ),
        decreases k,
    {
        if check_round_allowed(grid, stencil_slopes, k, cutoff, min_cells) {
            return k;
        }
        k -= 1;
    }
    0
}

/// The plan that advances a field on `grid` by `steps` steps in rounds with
/// walls that are solved directly.  A round is as long as is allowed, at most
/// `max_steps` steps and at most `steps` steps: no side of the grid may be
/// shorter than `cutoff`, and the periodic solve of a round must get at least
/// `min_cells` cells right.  Where not even a round of one step is allowed,
/// the answer is `PlanningInfeasible`.
pub fn build_plan<const GRID_DIMENSION: usize>(
    grid: AABB<GRID_DIMENSION>,
    stencil_slopes: &Bounds<GRID_DIMENSION>,
    steps: usize,
    max_steps: usize,
    cutoff: i32,
    min_cells: usize,
) -> (r: Result<APPlan<GRID_DIMENSION>, SolveError>)
    ensures
        r is Ok <==> 0 < round_length(
            grid@,
            faces(*stencil_slopes),
            if steps < max_steps {
                steps as int
            } else {
                max_steps as int
            },
            cutoff as int,
            min_cells as int,
        ),
        r is Err ==> r->Err_0 == SolveError::PlanningInfeasible,
        r is Ok ==> ({
            let round = round_length(
                grid@,
                faces(*stencil_slopes),
                if steps < max_steps {
                    steps as int
                } else {
                    max_steps as int
                },
                cutoff as int,
                min_cells as int,
            );
            &&& (r->Ok_0).wf()
            &&& (r->Ok_0).fits_together(faces(*stencil_slopes))
            &&& flat(
                &(r->Ok_0),
                grid,
                faces(*stencil_slopes),
                round as usize,
                (steps as int % round) as usize,
                (steps as int / round) as usize,
            )
        }),
{
    let limit = if steps < max_steps {
        steps
    } else {
        max_steps
    };
    let round = longest_round(&grid, stencil_slopes, limit, cutoff, min_cells);
    proof {
        lemma_round_length_longest(
            grid@,
            faces(*stencil_slopes),
            limit as int,
            cutoff as int,
            min_cells as int,
        );
    }
    if round == 0 {
        return Err(SolveError::PlanningInfeasible);
    }
    plan_with_direct_walls(grid, stencil_slopes, round, steps)
}

} // verus!
