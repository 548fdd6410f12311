use vstd::prelude::*;
use crate::domain::bc::check::BCCheck;
use crate::domain::view::SliceDomain;
use crate::error::SolveError;
use crate::par_stencil::{
    apply_within, computable, gathered, lemma_computable_by_domain, neighbor, neighbors_fit,
    produced,
};
use crate::stencil::{lemma_reach_covers, reach_down, reach_up, slopes_of, Stencil};
use crate::util::aabb::AABB;
use crate::util::faces::{faces, point, Bounds, Faces};

verus! {

/// `steps * (slope * mask)` without overflow.
pub(crate) fn face_travel(slope: i32, mask: i32, steps: usize) -> (r: i128)
    ensures
        r == steps * (slope * mask),
        -0x4000_0000_0000_0000_0000_0000_0000_0000 <= r <= 0x4000_0000_0000_0000_0000_0000_0000_0000,
{
    assert(-0x4000_0000_0000_0000 <= slope * mask <= 0x4000_0000_0000_0000) by (nonlinear_arith)
        requires
            -0x8000_0000 <= slope <= 0x7fff_ffff,
            -0x8000_0000 <= mask <= 0x7fff_ffff,
    ;
    let per_step: i64 = (slope as i64) * (mask as i64);
    let n: i128 = steps as i128;
    assert(-0x4000_0000_0000_0000_0000_0000_0000_0000 <= n * per_step
        <= 0x4000_0000_0000_0000_0000_0000_0000_0000) by (nonlinear_arith)
        requires
            0 <= n <= 0xffff_ffff_ffff_ffff,
            -0x4000_0000_0000_0000 <= per_step <= 0x4000_0000_0000_0000,
    ;
    n * (per_step as i128)
}

/// The region a direct solve must read to produce `output_box` after `steps`
/// steps: every face that `sloped_sides` marks moves outward by the stencil
/// slope of that face once per step; the other faces stay.
pub fn trapezoid_input_region<const GRID_DIMENSION: usize>(
    steps: usize,
    output_box: &AABB<GRID_DIMENSION>,
    sloped_sides: &Bounds<GRID_DIMENSION>,
    stencil_slopes: &Bounds<GRID_DIMENSION>,
) -> (r: AABB<GRID_DIMENSION>)
    requires
        output_box@.grown(faces(*stencil_slopes).times(faces(*sloped_sides)), steps as int).fits_i32(),
    ensures
        r@ == output_box@.grown(faces(*stencil_slopes).times(faces(*sloped_sides)), steps as int),
{
    let ghost per_step = faces(*stencil_slopes).times(faces(*sloped_sides));
    let ghost goal = output_box@.grown(per_step, steps as int);
    let mut bounds: Bounds<GRID_DIMENSION> = output_box.bounds;
    let mut d: usize = 0;
    while d < GRID_DIMENSION
        invariant
            d <= GRID_DIMENSION,
            per_step == faces(*stencil_slopes).times(faces(*sloped_sides)),
            goal == output_box@.grown(per_step, steps as int),
            goal.fits_i32(),
            forall|e: int| 0 <= e < d ==> bounds[e][0] == goal.lo[e] && bounds[e][1] == goal.hi[e],
        decreases GRID_DIMENSION - d,
    {
        let down = face_travel(stencil_slopes[d][0], sloped_sides[d][0], steps);
        let up = face_travel(stencil_slopes[d][1], sloped_sides[d][1], steps);
        proof {
            assert(per_step.lo[d as int] == stencil_slopes[d as int][0] * sloped_sides[d as int][0]);
            assert(per_step.hi[d as int] == stencil_slopes[d as int][1] * sloped_sides[d as int][1]);
            assert(goal.lo[d as int] == output_box.bounds[d as int][0] - down);
            assert(goal.hi[d as int] == output_box.bounds[d as int][1] + up);
        }
        let lo: i128 = output_box.bounds[d][0] as i128 - down;
        let hi: i128 = output_box.bounds[d][1] as i128 + up;
        bounds[d] = [lo as i32, hi as i32];
        d += 1;
    }
    let r = AABB { bounds };
    assert(r@.lo =~= goal.lo);
    assert(r@.hi =~= goal.hi);
    r
}

/// The region a direct solve has valid values on after `steps` steps when it
/// starts from `input_box`: every face that `sloped_sides` marks moves inward
/// by the stencil slope of that face once per step; the other faces stay.
pub fn trapezoid_output_region<const GRID_DIMENSION: usize>(
    steps: usize,
    input_box: &AABB<GRID_DIMENSION>,
    sloped_sides: &Bounds<GRID_DIMENSION>,
    stencil_slopes: &Bounds<GRID_DIMENSION>,
) -> (r: AABB<GRID_DIMENSION>)
    requires
        input_box@.shrunk(faces(*stencil_slopes).times(faces(*sloped_sides)), steps as int).fits_i32(),
    ensures
        r@ == input_box@.shrunk(faces(*stencil_slopes).times(faces(*sloped_sides)), steps as int),
{
    let ghost per_step = faces(*stencil_slopes).times(faces(*sloped_sides));
    let ghost goal = input_box@.shrunk(per_step, steps as int);
    let mut bounds: Bounds<GRID_DIMENSION> = input_box.bounds;
    let mut d: usize = 0;
    while d < GRID_DIMENSION
        invariant
            d <= GRID_DIMENSION,
            per_step == faces(*stencil_slopes).times(faces(*sloped_sides)),
            goal == input_box@.shrunk(per_step, steps as int),
            goal.fits_i32(),
            forall|e: int| 0 <= e < d ==> bounds[e][0] == goal.lo[e] && bounds[e][1] == goal.hi[e],
        decreases GRID_DIMENSION - d,
    {
        let up = face_travel(stencil_slopes[d][0], sloped_sides[d][0], steps);
        let down = face_travel(stencil_slopes[d][1], sloped_sides[d][1], steps);
        proof {
            assert(per_step.lo[d as int] == stencil_slopes[d as int][0] * sloped_sides[d as int][0]);
            assert(per_step.hi[d as int] == stencil_slopes[d as int][1] * sloped_sides[d as int][1]);
            assert(goal.lo[d as int] == input_box.bounds[d as int][0] + up);
            assert(goal.hi[d as int] == input_box.bounds[d as int][1] - down);
        }
        let lo: i128 = input_box.bounds[d][0] as i128 + up;
        let hi: i128 = input_box.bounds[d][1] as i128 - down;
        bounds[d] = [lo as i32, hi as i32];
        d += 1;
    }
    let r = AABB { bounds };
    assert(r@.lo =~= goal.lo);
    assert(r@.hi =~= goal.hi);
    r
}

/// `next` comes from `prev` by one step of the stencil: it lives on
/// `next_box`, and each of its values is what the stencil can make of the
/// values that `prev` and the boundary condition hold around that cell.
pub open spec fn stepped<
    NumType: Copy,
    BC: BCCheck<NumType, GRID_DIMENSION>,
    Operation: Fn(&[NumType; NEIGHBORHOOD_SIZE]) -> NumType,
    const GRID_DIMENSION: usize,
    const NEIGHBORHOOD_SIZE: usize,
>(
    bc: &BC,
    stencil: &Stencil<Operation, GRID_DIMENSION, NEIGHBORHOOD_SIZE>,
    clip: Faces,
    prev: Map<Seq<int>, NumType>,
    next: Map<Seq<int>, NumType>,
    next_box: Faces,
) -> bool {
    &&& next.dom() == next_box.points()
    &&& forall|p: Seq<int>|
        next_box.contains(p) ==> produced(bc, stencil, prev, clip, p, #[trigger] next[p])
}

/// `now` comes from `start` by `t` steps of the stencil on a region that
/// starts as `start_box` and loses `per_step` on every face with each step.
pub open spec fn evolved<
    NumType: Copy,
    BC: BCCheck<NumType, GRID_DIMENSION>,
    Operation: Fn(&[NumType; NEIGHBORHOOD_SIZE]) -> NumType,
    const GRID_DIMENSION: usize,
    const NEIGHBORHOOD_SIZE: usize,
>(
    bc: &BC,
    stencil: &Stencil<Operation, GRID_DIMENSION, NEIGHBORHOOD_SIZE>,
    clip: Faces,
    start_box: Faces,
    per_step: Faces,
    start: Map<Seq<int>, NumType>,
    t: nat,
    now: Map<Seq<int>, NumType>,
) -> bool
    decreases t,
{
    if t == 0 {
        now == start
    } else {
        exists|prev: Map<Seq<int>, NumType>|
            evolved(bc, stencil, clip, start_box, per_step, start, (t - 1) as nat, prev)
                && #[trigger] stepped(
                bc,
                stencil,
                clip,
                prev,
                now,
                start_box.shrunk(per_step, t as int),
            )
    }
}

/// One more step after `t - 1` steps makes `t` steps.
pub proof fn lemma_evolved_step<
    NumType: Copy,
    BC: BCCheck<NumType, GRID_DIMENSION>,
    Operation: Fn(&[NumType; NEIGHBORHOOD_SIZE]) -> NumType,
    const GRID_DIMENSION: usize,
    const NEIGHBORHOOD_SIZE: usize,
>(
    bc: &BC,
    stencil: &Stencil<Operation, GRID_DIMENSION, NEIGHBORHOOD_SIZE>,
    clip: Faces,
    start_box: Faces,
    per_step: Faces,
    start: Map<Seq<int>, NumType>,
    t: nat,
    prev: Map<Seq<int>, NumType>,
    now: Map<Seq<int>, NumType>,
)
    requires
        t > 0,
        evolved(bc, stencil, clip, start_box, per_step, start, (t - 1) as nat, prev),
        stepped(bc, stencil, clip, prev, now, start_box.shrunk(per_step, t as int)),
    ensures
        evolved(bc, stencil, clip, start_box, per_step, start, t, now),
{
}

/// Every one of `steps` steps can be taken: whatever the field is after
/// fewer steps, every cell of the next region can be computed from it.
pub open spec fn runs<
    NumType: Copy,
    BC: BCCheck<NumType, GRID_DIMENSION>,
    Operation: Fn(&[NumType; NEIGHBORHOOD_SIZE]) -> NumType,
    const GRID_DIMENSION: usize,
    const NEIGHBORHOOD_SIZE: usize,
>(
    bc: &BC,
    stencil: &Stencil<Operation, GRID_DIMENSION, NEIGHBORHOOD_SIZE>,
    clip: Faces,
    start_box: Faces,
    per_step: Faces,
    start: Map<Seq<int>, NumType>,
    steps: nat,
) -> bool {
    forall|t: nat, prev: Map<Seq<int>, NumType>|
        t < steps && #[trigger] evolved(bc, stencil, clip, start_box, per_step, start, t, prev)
            ==> computable(
            bc,
            prev,
            clip,
            stencil.reads_at(),
            start_box.shrunk(per_step, t as int + 1),
        )
}

/// The field after `t` steps has its values where the steps have left the
/// region: on the start field's own points before the first step, and on the
/// box that `t` steps leave afterwards.
pub proof fn lemma_evolved_domain<
    NumType: Copy,
    BC: BCCheck<NumType, GRID_DIMENSION>,
    Operation: Fn(&[NumType; NEIGHBORHOOD_SIZE]) -> NumType,
    const GRID_DIMENSION: usize,
    const NEIGHBORHOOD_SIZE: usize,
>(
    bc: &BC,
    stencil: &Stencil<Operation, GRID_DIMENSION, NEIGHBORHOOD_SIZE>,
    clip: Faces,
    start_box: Faces,
    per_step: Faces,
    start: Map<Seq<int>, NumType>,
    t: nat,
    now: Map<Seq<int>, NumType>,
)
    requires
        evolved(bc, stencil, clip, start_box, per_step, start, t, now),
    ensures
        t == 0 ==> now == start,
        t > 0 ==> now.dom() == start_box.shrunk(per_step, t as int).points(),
{
    if t > 0 {
        let prev = choose|prev: Map<Seq<int>, NumType>|
            evolved(bc, stencil, clip, start_box, per_step, start, (t - 1) as nat, prev)
                && #[trigger] stepped(
                bc,
                stencil,
                clip,
                prev,
                now,
                start_box.shrunk(per_step, t as int),
            );
    }
}

/// Where the steps so far can be taken and the next step can be taken from
/// the field `now` that they have led to, one more step can be taken.
proof fn lemma_runs_on<
    NumType: Copy,
    BC: BCCheck<NumType, GRID_DIMENSION>,
    Operation: Fn(&[NumType; NEIGHBORHOOD_SIZE]) -> NumType,
    const GRID_DIMENSION: usize,
    const NEIGHBORHOOD_SIZE: usize,
>(
    bc: &BC,
    stencil: &Stencil<Operation, GRID_DIMENSION, NEIGHBORHOOD_SIZE>,
    clip: Faces,
    start_box: Faces,
    per_step: Faces,
    start: Map<Seq<int>, NumType>,
    t: nat,
    now: Map<Seq<int>, NumType>,
)
    requires
        runs(bc, stencil, clip, start_box, per_step, start, t),
        evolved(bc, stencil, clip, start_box, per_step, start, t, now),
        computable(bc, now, clip, stencil.reads_at(), start_box.shrunk(per_step, t as int + 1)),
    ensures
        runs(bc, stencil, clip, start_box, per_step, start, (t + 1) as nat),
{
    assert forall|u: nat, prev: Map<Seq<int>, NumType>|
        u < t + 1 && #[trigger] evolved(
            bc,
            stencil,
            clip,
            start_box,
            per_step,
            start,
            u,
            prev,
        ) implies computable(
        bc,
        prev,
        clip,
        stencil.reads_at(),
        start_box.shrunk(per_step, u as int + 1),
    ) by {
        if u == t {
            lemma_evolved_domain(bc, stencil, clip, start_box, per_step, start, t, prev);
            lemma_evolved_domain(bc, stencil, clip, start_box, per_step, start, t, now);
            lemma_computable_by_domain(
                bc,
                now,
                prev,
                clip,
                stencil.reads_at(),
                start_box.shrunk(per_step, t as int + 1),
            );
        }
    }
}

/// A solve never lacks a value where the field is read in all of the start
/// region, the boundary condition has a value for every point outside the
/// start region, and every face either stays or moves inward by the slope
/// of the stencil: a step then reads the field inside the region that the
/// step before has left, and the boundary condition outside the start
/// region.
pub proof fn lemma_runs_with_values_outside<
    NumType: Copy,
    BC: BCCheck<NumType, GRID_DIMENSION>,
    Operation: Fn(&[NumType; NEIGHBORHOOD_SIZE]) -> NumType,
    const GRID_DIMENSION: usize,
    const NEIGHBORHOOD_SIZE: usize,
>(
    bc: &BC,
    stencil: &Stencil<Operation, GRID_DIMENSION, NEIGHBORHOOD_SIZE>,
    start_box: Faces,
    sloped: Faces,
    start: Map<Seq<int>, NumType>,
    steps: nat,
)
    requires
        start_box.shaped(GRID_DIMENSION as nat),
        sloped.shaped(GRID_DIMENSION as nat),
        forall|d: int|
            0 <= d < GRID_DIMENSION ==> (#[trigger] sloped.lo[d] == 0 || sloped.lo[d] == 1),
        forall|d: int|
            0 <= d < GRID_DIMENSION ==> (#[trigger] sloped.hi[d] == 0 || sloped.hi[d] == 1),
        start.dom() == start_box.points(),
        forall|q: Seq<int>|
            q.len() == GRID_DIMENSION && !start_box.contains(q) ==> (#[trigger] bc.value_at(q)) is Some,
    ensures
        runs(
            bc,
            stencil,
            start_box,
            start_box,
            slopes_of(stencil.reads_at()).times(sloped),
            start,
            steps,
        ),
{
    let offsets = stencil.reads_at();
    let per_step = slopes_of(offsets).times(sloped);
    assert forall|t: nat, prev: Map<Seq<int>, NumType>|
        t < steps && #[trigger] evolved(
            bc,
            stencil,
            start_box,
            start_box,
            per_step,
            start,
            t,
            prev,
        ) implies computable(bc, prev, start_box, offsets, start_box.shrunk(per_step, t as int + 1)) by {
        let here = start_box.shrunk(per_step, t as int);
        let there = start_box.shrunk(per_step, t as int + 1);
        lemma_evolved_domain(bc, stencil, start_box, start_box, per_step, start, t, prev);
        if t == 0 {
            assert(here.lo =~= start_box.lo);
            assert(here.hi =~= start_box.hi);
        }
        assert(prev.dom() == here.points());
        assert forall|p: Seq<int>, i: int|
            there.contains(p) && 0 <= i < NEIGHBORHOOD_SIZE implies (#[trigger] gathered(
            bc,
            prev,
            start_box,
            offsets,
            p,
        )[i]) is Some by {
            let q = neighbor(p, point(offsets[i]));
            if start_box.contains(q) {
                assert forall|d: int| 0 <= d < here.lo.len() implies here.lo[d] <= #[trigger] q[d]
                    <= here.hi[d] by {
                    lemma_reach_covers(offsets, d, NEIGHBORHOOD_SIZE as int, i);
                    let down = reach_down(offsets, d, NEIGHBORHOOD_SIZE as int);
                    let up = reach_up(offsets, d, NEIGHBORHOOD_SIZE as int);
                    let a = sloped.lo[d];
                    let b = sloped.hi[d];
                    let u = t as int;
                    assert(per_step.lo[d] == down * a);
                    assert(per_step.hi[d] == up * b);
                    assert(there.lo[d] <= p[d] <= there.hi[d]);
                    assert(start_box.lo[d] <= q[d] <= start_box.hi[d]);
                    assert(q[d] == p[d] + offsets[i][d]);
                    assert((u + 1) * (down * a) - down >= u * (down * a) || a == 0)
                        by (nonlinear_arith)
                        requires
                            a == 0 || a == 1,
                    ;
                    assert(u * (down * a) == 0 || a == 1) by (nonlinear_arith)
                        requires
                            a == 0 || a == 1,
                    ;
                    assert((u + 1) * (up * b) - up >= u * (up * b) || b == 0) by (nonlinear_arith)
                        requires
                            b == 0 || b == 1,
                    ;
                    assert(u * (up * b) == 0 || b == 1) by (nonlinear_arith)
                        requires
                            b == 0 || b == 1,
                    ;
                }
                assert(here.contains(q));
                assert(prev.dom().contains(q));
            } else {
                assert(bc.value_at(q) is Some);
            }
        }
    }
}

/// Apply the stencil `steps` times to the field in `input`.  With every
/// step the region loses, on each face that `sloped_sides` marks, as many
/// layers as the stencil slope of that face says; the other faces stay.  A
/// cell is read from the field only inside `clip`; everywhere else the
/// boundary condition is asked.  The two domains take turns as source and
/// target, and the result ends up in `output`.  The solve succeeds exactly
/// where every step can be taken; it is `OracleMissing` where, at some step,
/// the boundary condition lacks a value that is needed.
pub fn trapezoid_apply_within<
    'a,
    NumType: Copy,
    BC: BCCheck<NumType, GRID_DIMENSION>,
    Operation: Fn(&[NumType; NEIGHBORHOOD_SIZE]) -> NumType,
    const GRID_DIMENSION: usize,
    const NEIGHBORHOOD_SIZE: usize,
>(
    bc: &BC,
    stencil: &Stencil<Operation, GRID_DIMENSION, NEIGHBORHOOD_SIZE>,
    input: &mut SliceDomain<'a, NumType, GRID_DIMENSION>,
    output: &mut SliceDomain<'a, NumType, GRID_DIMENSION>,
    clip: &AABB<GRID_DIMENSION>,
    sloped_sides: &Bounds<GRID_DIMENSION>,
    stencil_slopes: &Bounds<GRID_DIMENSION>,
    steps: usize,
) -> (r: Result<(), SolveError>)
    requires
        old(input).wf(),
        old(output).wf(),
        old(input).region() == old(output).region(),
        forall|d: int|
            0 <= d < GRID_DIMENSION ==> 0 <= #[trigger] faces(*stencil_slopes).times(
                faces(*sloped_sides),
            ).lo[d],
        forall|d: int|
            0 <= d < GRID_DIMENSION ==> 0 <= #[trigger] faces(*stencil_slopes).times(
                faces(*sloped_sides),
            ).hi[d],
        old(input).region()@.shrunk(
            faces(*stencil_slopes).times(faces(*sloped_sides)),
            steps as int,
        ).valid(),
        forall|args: &[NumType; NEIGHBORHOOD_SIZE]|
            call_requires(stencil.rule(), (args,)),
        forall|p: Seq<int>|
            old(input).region()@.contains(p) ==> #[trigger] neighbors_fit(
                stencil.reads_at(),
                p,
            ),
    ensures
        final(input).wf(),
        final(output).wf(),
        r is Ok ==> final(output).region()@ == old(input).region()@.shrunk(
            faces(*stencil_slopes).times(faces(*sloped_sides)),
            steps as int,
        ),
        r is Ok && steps == 0 ==> final(input).region() == old(output).region(),
        r is Ok && steps > 0 ==> final(input).region()@ == old(input).region()@.shrunk(
            faces(*stencil_slopes).times(faces(*sloped_sides)),
            steps - 1,
        ),
        r is Ok ==> evolved(
            bc,
            stencil,
            clip@,
            old(input).region()@,
            faces(*stencil_slopes).times(faces(*sloped_sides)),
            old(input).field(),
            steps as nat,
            final(output).field(),
        ),
        r is Ok <==> runs(
            bc,
            stencil,
            clip@,
            old(input).region()@,
            faces(*stencil_slopes).times(faces(*sloped_sides)),
            old(input).field(),
            steps as nat,
        ),
        steps == 0 ==> r is Ok,
        r is Err ==> r->Err_0 == SolveError::OracleMissing,
{
    let ghost per_step = faces(*stencil_slopes).times(faces(*sloped_sides));
    let ghost start_box = input.region()@;
    let ghost start = input.field();
    let ghost capacity = start_box.volume();
    proof {
        start_box.lemma_shrunk_twice(per_step, 0, 0);
        assert(start_box.shrunk(per_step, 0).lo =~= start_box.lo);
        assert(start_box.shrunk(per_step, 0).hi =~= start_box.hi);
    }
    let mut t: usize = 0;
    while t < steps
        invariant
            t <= steps,
            per_step == faces(*stencil_slopes).times(faces(*sloped_sides)),
            per_step.shaped(GRID_DIMENSION as nat),
            start_box.shaped(GRID_DIMENSION as nat),
            start_box.storable(),
            start_box.fits_i32(),
            capacity == start_box.volume(),
            forall|d: int| 0 <= d < GRID_DIMENSION ==> 0 <= #[trigger] per_step.lo[d],
            forall|d: int| 0 <= d < GRID_DIMENSION ==> 0 <= #[trigger] per_step.hi[d],
            start_box.shrunk(per_step, steps as int).valid(),
            forall|args: &[NumType; NEIGHBORHOOD_SIZE]|
                call_requires(stencil.rule(), (args,)),
            forall|p: Seq<int>|
                start_box.contains(p) ==> #[trigger] neighbors_fit(stencil.reads_at(), p),
            input.wf(),
            output.wf(),
            capacity <= input.cells().len(),
            capacity <= output.cells().len(),
            input.region()@ == start_box.shrunk(per_step, t as int),
            t == 0 ==> output.region() == old(output).region(),
            t > 0 ==> output.region()@ == start_box.shrunk(per_step, t - 1),
            start_box == old(input).region()@,
            evolved(bc, stencil, clip@, start_box, per_step, start, t as nat, input.field()),
            start == old(input).field(),
            runs(bc, stencil, clip@, start_box, per_step, start, t as nat),
        decreases steps - t,
    {
        let ghost here = input.region()@;
        let ghost there = start_box.shrunk(per_step, t + 1);
        proof {
            start_box.lemma_shrunk_twice(per_step, t as int, 1);
            start_box.lemma_shrunk_inside(per_step, t + 1, steps as int);
            start_box.lemma_inner_storable(there);
        }
        let output_box = trapezoid_output_region(1, input.aabb(), sloped_sides, stencil_slopes);
        output.set_aabb(output_box);
        proof {
            assert forall|p: Seq<int>| output.region()@.contains(p) implies #[trigger] neighbors_fit(
                stencil.reads_at(),
                p,
            ) by {
                assert forall|d: int| 0 <= d < p.len() implies start_box.lo[d] <= #[trigger] p[d]
                    <= start_box.hi[d] by {
                    assert(there.lo[d] <= p[d] <= there.hi[d]);
                    assert(start_box.lo[d] <= there.lo[d]);
                    assert(there.hi[d] <= start_box.hi[d]);
                }
                assert(start_box.contains(p));
            }
        }
        let ghost source = input.field();
        match apply_within(bc, stencil, input, clip, output) {
            Ok(()) => {},
            Err(e) => {
                assert(!computable(bc, source, clip@, stencil.reads_at(), there));
                assert(evolved(bc, stencil, clip@, start_box, per_step, start, t as nat, source));
                return Err(e);
            },
        }
        proof {
            lemma_runs_on(bc, stencil, clip@, start_box, per_step, start, t as nat, source);
            let target = output.field();
            assert(target.dom() =~= there.points());
            assert forall|p: Seq<int>| there.contains(p) implies produced(
                bc,
                stencil,
                source,
                clip@,
                p,
                #[trigger] target[p],
            ) by {
                assert(produced(bc, stencil, source, clip@, p, output.value_at(p)));
            }
            assert(stepped(bc, stencil, clip@, source, target, there));
            let later = (t + 1) as nat;
            assert((later - 1) as nat == t as nat);
            assert(there == start_box.shrunk(per_step, later as int));
            lemma_evolved_step(
                bc,
                stencil,
                clip@,
                start_box,
                per_step,
                start,
                later,
                source,
                target,
            );
        }
        std::mem::swap(input, output);
        t += 1;
    }
    std::mem::swap(input, output);
    Ok(())
}

/// Apply the stencil `steps` times to the field in `input`, reading the
/// field wherever it has a value.  See [`trapezoid_apply_within`].
pub fn trapezoid_apply<
    'a,
    NumType: Copy,
    BC: BCCheck<NumType, GRID_DIMENSION>,
    Operation: Fn(&[NumType; NEIGHBORHOOD_SIZE]) -> NumType,
    const GRID_DIMENSION: usize,
    const NEIGHBORHOOD_SIZE: usize,
>(
    bc: &BC,
    stencil: &Stencil<Operation, GRID_DIMENSION, NEIGHBORHOOD_SIZE>,
    input: &mut SliceDomain<'a, NumType, GRID_DIMENSION>,
    output: &mut SliceDomain<'a, NumType, GRID_DIMENSION>,
    sloped_sides: &Bounds<GRID_DIMENSION>,
    stencil_slopes: &Bounds<GRID_DIMENSION>,
    steps: usize,
) -> (r: Result<(), SolveError>)
    requires
        old(input).wf(),
        old(output).wf(),
        old(input).region() == old(output).region(),
        forall|d: int|
            0 <= d < GRID_DIMENSION ==> 0 <= #[trigger] faces(*stencil_slopes).times(
                faces(*sloped_sides),
            ).lo[d],
        forall|d: int|
            0 <= d < GRID_DIMENSION ==> 0 <= #[trigger] faces(*stencil_slopes).times(
                faces(*sloped_sides),
            ).hi[d],
        old(input).region()@.shrunk(
            faces(*stencil_slopes).times(faces(*sloped_sides)),
            steps as int,
        ).valid(),
        forall|args: &[NumType; NEIGHBORHOOD_SIZE]|
            call_requires(stencil.rule(), (args,)),
        forall|p: Seq<int>|
            old(input).region()@.contains(p) ==> #[trigger] neighbors_fit(
                stencil.reads_at(),
                p,
            ),
    ensures
        final(input).wf(),
        final(output).wf(),
        r is Ok ==> final(output).region()@ == old(input).region()@.shrunk(
            faces(*stencil_slopes).times(faces(*sloped_sides)),
            steps as int,
        ),
        r is Ok && steps == 0 ==> final(input).region() == old(output).region(),
        r is Ok && steps > 0 ==> final(input).region()@ == old(input).region()@.shrunk(
            faces(*stencil_slopes).times(faces(*sloped_sides)),
            steps - 1,
        ),
        r is Ok ==> evolved(
            bc,
            stencil,
            old(input).region()@,
            old(input).region()@,
            faces(*stencil_slopes).times(faces(*sloped_sides)),
            old(input).field(),
            steps as nat,
            final(output).field(),
        ),
        r is Ok <==> runs(
            bc,
            stencil,
            old(input).region()@,
            old(input).region()@,
            faces(*stencil_slopes).times(faces(*sloped_sides)),
            old(input).field(),
            steps as nat,
        ),
        steps == 0 ==> r is Ok,
        r is Err ==> r->Err_0 == SolveError::OracleMissing,
{
    let clip = *input.aabb();
    trapezoid_apply_within(bc, stencil, input, output, &clip, sloped_sides, stencil_slopes, steps)
}

} // verus!
