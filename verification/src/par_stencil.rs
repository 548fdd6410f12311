use vstd::prelude::*;
use crate::domain::bc::check::BCCheck;
use crate::domain::view::SliceDomain;
use crate::error::SolveError;
use crate::stencil::Stencil;
use crate::util::aabb::AABB;
use crate::util::faces::{point, Coord, Faces};
use crate::util::indexing::lemma_suffix_product_positive;

verus! {

/// The point that lies `offset` away from `p`.
pub open spec fn neighbor(p: Seq<int>, offset: Seq<int>) -> Seq<int> {
    Seq::new(p.len(), |d: int| p[d] + offset[d])
}

/// The value that a solve reads at `p`: the field where it has a value at
/// `p` and `p` lies in `clip`, and what the boundary condition gives
/// elsewhere, if it gives anything.
pub open spec fn read_at<
    NumType: Copy,
    BC: BCCheck<NumType, GRID_DIMENSION>,
    const GRID_DIMENSION: usize,
>(bc: &BC, field: Map<Seq<int>, NumType>, clip: Faces, p: Seq<int>) -> Option<NumType> {
    if clip.contains(p) && field.dom().contains(p) {
        Some(field[p])
    } else {
        bc.value_at(p)
    }
}

/// The values that a solve reads around the cell at `p`, one per offset.
pub open spec fn gathered<
    NumType: Copy,
    BC: BCCheck<NumType, GRID_DIMENSION>,
    const GRID_DIMENSION: usize,
    const NEIGHBORHOOD_SIZE: usize,
>(
    bc: &BC,
    field: Map<Seq<int>, NumType>,
    clip: Faces,
    offsets: [Coord<GRID_DIMENSION>; NEIGHBORHOOD_SIZE],
    p: Seq<int>,
) -> Seq<Option<NumType>> {
    Seq::new(
        NEIGHBORHOOD_SIZE as nat,
        |i: int| read_at(bc, field, clip, neighbor(p, point(offsets[i]))),
    )
}

/// `args` holds exactly what was read.
pub open spec fn holds<NumType, const NEIGHBORHOOD_SIZE: usize>(
    args: [NumType; NEIGHBORHOOD_SIZE],
    read: Seq<Option<NumType>>,
) -> bool {
    forall|i: int| 0 <= i < NEIGHBORHOOD_SIZE ==> (#[trigger] read[i]) == Some(args[i])
}

/// `value` is what the stencil can make of the values read around `p`.
pub open spec fn produced<
    NumType: Copy,
    BC: BCCheck<NumType, GRID_DIMENSION>,
    Operation: Fn(&[NumType; NEIGHBORHOOD_SIZE]) -> NumType,
    const GRID_DIMENSION: usize,
    const NEIGHBORHOOD_SIZE: usize,
>(
    bc: &BC,
    stencil: &Stencil<Operation, GRID_DIMENSION, NEIGHBORHOOD_SIZE>,
    field: Map<Seq<int>, NumType>,
    clip: Faces,
    p: Seq<int>,
    value: NumType,
) -> bool {
    exists|args: [NumType; NEIGHBORHOOD_SIZE]|
        holds(args, gathered(bc, field, clip, stencil.reads_at(), p)) && call_ensures(
            stencil.rule(),
            (&args,),
            value,
        )
}

/// Every neighbour of `p` has coordinates that fit in an `i32`.
pub open spec fn neighbors_fit<const GRID_DIMENSION: usize, const NEIGHBORHOOD_SIZE: usize>(
    offsets: [Coord<GRID_DIMENSION>; NEIGHBORHOOD_SIZE],
    p: Seq<int>,
) -> bool {
    forall|i: int, d: int|
        0 <= i < NEIGHBORHOOD_SIZE && 0 <= d < GRID_DIMENSION ==> i32::MIN <= p[d]
            + #[trigger] offsets[i][d] <= i32::MAX
}

/// The values around the cell at `world_coord`, one per offset of the
/// stencil.  A neighbour inside `clip` is read from `input`; for every other
/// neighbour the boundary condition is asked, and the values are
/// `OracleMissing` where it has none.
pub fn gather_args_within<
    NumType: Copy,
    BC: BCCheck<NumType, GRID_DIMENSION>,
    Operation,
    const GRID_DIMENSION: usize,
    const NEIGHBORHOOD_SIZE: usize,
>(
    stencil: &Stencil<Operation, GRID_DIMENSION, NEIGHBORHOOD_SIZE>,
    bc: &BC,
    input: &SliceDomain<'_, NumType, GRID_DIMENSION>,
    clip: &AABB<GRID_DIMENSION>,
    world_coord: &Coord<GRID_DIMENSION>,
) -> (r: Result<[NumType; NEIGHBORHOOD_SIZE], SolveError>)
    requires
        input.wf(),
        neighbors_fit(stencil.reads_at(), point(*world_coord)),
    ensures
        r is Ok <==> forall|i: int|
            0 <= i < NEIGHBORHOOD_SIZE ==> (#[trigger] gathered(
                bc,
                input.field(),
                clip@,
                stencil.reads_at(),
                point(*world_coord),
            )[i]) is Some,
        r is Ok ==> holds(
            r->Ok_0,
            gathered(bc, input.field(), clip@, stencil.reads_at(), point(*world_coord)),
        ),
        r is Err ==> r->Err_0 == SolveError::OracleMissing,
{
    let ghost p = point(*world_coord);
    let ghost read = gathered(bc, input.field(), clip@, stencil.reads_at(), p);
    proof {
        let b = input.region()@;
        assert forall|d: int| 0 <= d < b.sizes().len() implies #[trigger] b.sizes()[d] >= 1 by {
            assert(b.lo[d] <= b.hi[d]);
        }
        lemma_suffix_product_positive(b.sizes(), 0);
    }
    let seed = input.buffer()[0];
    let mut args: [NumType; NEIGHBORHOOD_SIZE] = [seed; NEIGHBORHOOD_SIZE];
    let offsets = stencil.offsets();
    let mut i: usize = 0;
    while i < NEIGHBORHOOD_SIZE
        invariant
            i <= NEIGHBORHOOD_SIZE,
            input.wf(),
            *offsets == stencil.reads_at(),
            p == point(*world_coord),
            neighbors_fit(stencil.reads_at(), p),
            read == gathered(bc, input.field(), clip@, stencil.reads_at(), p),
            forall|j: int| 0 <= j < i ==> (#[trigger] read[j]) == Some(args[j]),
        decreases NEIGHBORHOOD_SIZE - i,
    {
        let mut n_world_coord: Coord<GRID_DIMENSION> = [0i32; GRID_DIMENSION];
        let mut d: usize = 0;
        while d < GRID_DIMENSION
            invariant
                d <= GRID_DIMENSION,
                i < NEIGHBORHOOD_SIZE,
                *offsets == stencil.reads_at(),
                p == point(*world_coord),
                neighbors_fit(stencil.reads_at(), p),
                forall|e: int| 0 <= e < d ==> n_world_coord[e] == p[e] + offsets[i as int][e],
            decreases GRID_DIMENSION - d,
        {
            assert(i32::MIN <= p[d as int] + stencil.reads_at()[i as int][d as int] <= i32::MAX);
            n_world_coord[d] = world_coord[d] + offsets[i][d];
            d += 1;
        }
        let ghost q = neighbor(p, point(offsets[i as int]));
        assert(point(n_world_coord) =~= q);
        assert(read[i as int] == read_at(bc, input.field(), clip@, q));
        let value = if clip.contains(&n_world_coord) && input.aabb().contains(&n_world_coord) {
            input.view(&n_world_coord)
        } else {
            match bc.check(&n_world_coord) {
                Some(value) => value,
                None => {
                    assert(read[i as int] is None);
                    return Err(SolveError::OracleMissing);
                },
            }
        };
        args[i] = value;
        i += 1;
    }
    Ok(args)
}

/// The values around the cell at `world_coord`, one per offset of the
/// stencil.  A neighbour inside the box of `input` is read from `input`; for
/// every other neighbour the boundary condition is asked.
pub fn gather_args<
    NumType: Copy,
    BC: BCCheck<NumType, GRID_DIMENSION>,
    Operation,
    const GRID_DIMENSION: usize,
    const NEIGHBORHOOD_SIZE: usize,
>(
    stencil: &Stencil<Operation, GRID_DIMENSION, NEIGHBORHOOD_SIZE>,
    bc: &BC,
    input: &SliceDomain<'_, NumType, GRID_DIMENSION>,
    world_coord: &Coord<GRID_DIMENSION>,
) -> (r: Result<[NumType; NEIGHBORHOOD_SIZE], SolveError>)
    requires
        input.wf(),
        neighbors_fit(stencil.reads_at(), point(*world_coord)),
    ensures
        r is Ok <==> forall|i: int|
            0 <= i < NEIGHBORHOOD_SIZE ==> (#[trigger] gathered(
                bc,
                input.field(),
                input.region()@,
                stencil.reads_at(),
                point(*world_coord),
            )[i]) is Some,
        r is Ok ==> holds(
            r->Ok_0,
            gathered(bc, input.field(), input.region()@, stencil.reads_at(), point(*world_coord)),
        ),
        r is Err ==> r->Err_0 == SolveError::OracleMissing,
{
    gather_args_within(stencil, bc, input, input.aabb(), world_coord)
}

/// Every cell of the box `target` can be computed: the coordinates of its
/// neighbours fit in an `i32` and every neighbour outside `clip` has a value
/// from the boundary condition.
pub open spec fn computable<
    NumType: Copy,
    BC: BCCheck<NumType, GRID_DIMENSION>,
    const GRID_DIMENSION: usize,
    const NEIGHBORHOOD_SIZE: usize,
>(
    bc: &BC,
    field: Map<Seq<int>, NumType>,
    clip: Faces,
    offsets: [Coord<GRID_DIMENSION>; NEIGHBORHOOD_SIZE],
    target: Faces,
) -> bool {
    forall|p: Seq<int>, i: int|
        target.contains(p) && 0 <= i < NEIGHBORHOOD_SIZE ==> (#[trigger] gathered(
            bc,
            field,
            clip,
            offsets,
            p,
        )[i]) is Some
}

/// Whether the cells of a box can be computed depends on where the field has
/// values, not on the values.
pub proof fn lemma_computable_by_domain<
    NumType: Copy,
    BC: BCCheck<NumType, GRID_DIMENSION>,
    const GRID_DIMENSION: usize,
    const NEIGHBORHOOD_SIZE: usize,
>(
    bc: &BC,
    field: Map<Seq<int>, NumType>,
    other: Map<Seq<int>, NumType>,
    clip: Faces,
    offsets: [Coord<GRID_DIMENSION>; NEIGHBORHOOD_SIZE],
    target: Faces,
)
    requires
        field.dom() == other.dom(),
    ensures
        computable(bc, field, clip, offsets, target) == computable(
            bc,
            other,
            clip,
            offsets,
            target,
        ),
{
    assert forall|p: Seq<int>, i: int| 0 <= i < NEIGHBORHOOD_SIZE implies (#[trigger] gathered(
        bc,
        field,
        clip,
        offsets,
        p,
    )[i]) is Some == gathered(bc, other, clip, offsets, p)[i] is Some by {}
    if computable(bc, field, clip, offsets, target) {
        assert forall|p: Seq<int>, i: int|
            target.contains(p) && 0 <= i < NEIGHBORHOOD_SIZE implies (#[trigger] gathered(
            bc,
            other,
            clip,
            offsets,
            p,
        )[i]) is Some by {
            assert(gathered(bc, field, clip, offsets, p)[i] is Some);
        }
    }
    if computable(bc, other, clip, offsets, target) {
        assert forall|p: Seq<int>, i: int|
            target.contains(p) && 0 <= i < NEIGHBORHOOD_SIZE implies (#[trigger] gathered(
            bc,
            field,
            clip,
            offsets,
            p,
        )[i]) is Some by {
            assert(gathered(bc, other, clip, offsets, p)[i] is Some);
        }
    }
}

/// Give every cell of `output` its next value: the stencil applied to the
/// values around the cell, read from `input` inside `clip` and from the
/// boundary condition elsewhere.  The cells are `OracleMissing` where the
/// boundary condition lacks a value that is needed; `output` may then be
/// written in part.  Cells of the buffer behind those of the box keep their
/// values.
pub fn apply_within<
    NumType: Copy,
    BC: BCCheck<NumType, GRID_DIMENSION>,
    Operation: Fn(&[NumType; NEIGHBORHOOD_SIZE]) -> NumType,
    const GRID_DIMENSION: usize,
    const NEIGHBORHOOD_SIZE: usize,
>(
    bc: &BC,
    stencil: &Stencil<Operation, GRID_DIMENSION, NEIGHBORHOOD_SIZE>,
    input: &SliceDomain<'_, NumType, GRID_DIMENSION>,
    clip: &AABB<GRID_DIMENSION>,
    output: &mut SliceDomain<'_, NumType, GRID_DIMENSION>,
) -> (r: Result<(), SolveError>)
    requires
        input.wf(),
        old(output).wf(),
        forall|args: &[NumType; NEIGHBORHOOD_SIZE]|
            call_requires(stencil.rule(), (args,)),
        forall|p: Seq<int>|
            old(output).region()@.contains(p) ==> #[trigger] neighbors_fit(
                stencil.reads_at(),
                p,
            ),
    ensures
        final(output).wf(),
        final(output).region() == old(output).region(),
        final(output).cells().len() == old(output).cells().len(),
        forall|i: int|
            old(output).region()@.volume() <= i < old(output).cells().len() ==> final(output).cells()[i]
                == old(output).cells()[i],
        r is Ok <==> computable(
            bc,
            input.field(),
            clip@,
            stencil.reads_at(),
            old(output).region()@,
        ),
        r is Ok ==> forall|p: Seq<int>|
            old(output).region()@.contains(p) ==> produced(
                bc,
                stencil,
                input.field(),
                clip@,
                p,
                #[trigger] final(output).value_at(p),
            ),
        r is Err ==> r->Err_0 == SolveError::OracleMissing,
{
    let target_box = *output.aabb();
    let n = target_box.buffer_size();
    let ghost target = target_box@;
    let ghost size = output.cells().len();
    let mut i: usize = 0;
    while i < n
        invariant
            i <= n,
            n == target.volume(),
            input.wf(),
            output.wf(),
            output.region() == target_box,
            target_box == old(output).region(),
            target == target_box@,
            output.cells().len() == size,
            size == old(output).cells().len(),
            forall|j: int| n <= j < size ==> output.cells()[j] == old(output).cells()[j],
            forall|args: &[NumType; NEIGHBORHOOD_SIZE]|
                call_requires(stencil.rule(), (args,)),
            forall|p: Seq<int>|
                target.contains(p) ==> #[trigger] neighbors_fit(stencil.reads_at(), p),
            forall|p: Seq<int>, j: int|
                target.contains(p) && 0 <= target.linear_index(p) < i && 0 <= j < NEIGHBORHOOD_SIZE
                    ==> (#[trigger] gathered(bc, input.field(), clip@, stencil.reads_at(), p)[j]) is Some,
            forall|p: Seq<int>|
                target.contains(p) && 0 <= target.linear_index(p) < i ==> produced(
                    bc,
                    stencil,
                    input.field(),
                    clip@,
                    p,
                    output.cells()[#[trigger] target.linear_index(p)],
                ),
        decreases n - i,
    {
        let world_coord = target_box.linear_to_coord(i);
        let ghost c = point(world_coord);
        assert(neighbors_fit(stencil.reads_at(), c));
        let args = match gather_args_within(stencil, bc, input, clip, &world_coord) {
            Ok(args) => args,
            Err(e) => {
                proof {
                    let j = choose|j: int|
                        0 <= j < NEIGHBORHOOD_SIZE && !((#[trigger] gathered(
                            bc,
                            input.field(),
                            clip@,
                            stencil.reads_at(),
                            c,
                        )[j]) is Some);
                    assert(!(gathered(bc, input.field(), clip@, stencil.reads_at(), c)[j] is Some));
                }
                return Err(e);
            },
        };
        let value = stencil.apply(&args);
        let ghost before = output.cells();
        output.set_cell(i, value);
        proof {
            assert(produced(bc, stencil, input.field(), clip@, c, value));
            assert forall|p: Seq<int>|
                target.contains(p) && 0 <= target.linear_index(p) < i + 1 implies produced(
                bc,
                stencil,
                input.field(),
                clip@,
                p,
                output.cells()[#[trigger] target.linear_index(p)],
            ) by {
                target.lemma_offset_within(p);
                if target.linear_index(p) == i {
                    target.lemma_linear_index_injective(p, c);
                } else {
                    assert(produced(
                        bc,
                        stencil,
                        input.field(),
                        clip@,
                        p,
                        before[target.linear_index(p)],
                    ));
                }
            }
            assert forall|p: Seq<int>, j: int|
                target.contains(p) && 0 <= target.linear_index(p) < i + 1 && 0 <= j
                    < NEIGHBORHOOD_SIZE implies (#[trigger] gathered(
                bc,
                input.field(),
                clip@,
                stencil.reads_at(),
                p,
            )[j]) is Some by {
                if target.linear_index(p) == i {
                    target.lemma_linear_index_injective(p, c);
                }
            }
        }
        i += 1;
    }
    proof {
        assert forall|p: Seq<int>, j: int|
            target.contains(p) && 0 <= j < NEIGHBORHOOD_SIZE implies (#[trigger] gathered(
            bc,
            input.field(),
            clip@,
            stencil.reads_at(),
            p,
        )[j]) is Some by {
            target.lemma_offset_within(p);
        }
        assert forall|p: Seq<int>| target.contains(p) implies produced(
            bc,
            stencil,
            input.field(),
            clip@,
            p,
            #[trigger] output.value_at(p),
        ) by {
            target.lemma_offset_within(p);
        }
    }
    Ok(())
}

/// Give every cell of `output` its next value: the stencil applied to the
/// values around the cell, read from `input` inside its box and from the
/// boundary condition elsewhere.
pub fn apply<
    NumType: Copy,
    BC: BCCheck<NumType, GRID_DIMENSION>,
    Operation: Fn(&[NumType; NEIGHBORHOOD_SIZE]) -> NumType,
    const GRID_DIMENSION: usize,
    const NEIGHBORHOOD_SIZE: usize,
>(
    bc: &BC,
    stencil: &Stencil<Operation, GRID_DIMENSION, NEIGHBORHOOD_SIZE>,
    input: &SliceDomain<'_, NumType, GRID_DIMENSION>,
    output: &mut SliceDomain<'_, NumType, GRID_DIMENSION>,
) -> (r: Result<(), SolveError>)
    requires
        input.wf(),
        old(output).wf(),
        forall|args: &[NumType; NEIGHBORHOOD_SIZE]|
            call_requires(stencil.rule(), (args,)),
        forall|p: Seq<int>|
            old(output).region()@.contains(p) ==> #[trigger] neighbors_fit(
                stencil.reads_at(),
                p,
            ),
    ensures
        final(output).wf(),
        final(output).region() == old(output).region(),
        final(output).cells().len() == old(output).cells().len(),
        forall|i: int|
            old(output).region()@.volume() <= i < old(output).cells().len() ==> final(output).cells()[i]
                == old(output).cells()[i],
        r is Ok <==> computable(
            bc,
            input.field(),
            input.region()@,
            stencil.reads_at(),
            old(output).region()@,
        ),
        r is Ok ==> forall|p: Seq<int>|
            old(output).region()@.contains(p) ==> produced(
                bc,
                stencil,
                input.field(),
                input.region()@,
                p,
                #[trigger] final(output).value_at(p),
            ),
        r is Err ==> r->Err_0 == SolveError::OracleMissing,
{
    apply_within(bc, stencil, input, input.aabb(), output)
}

} // verus!
