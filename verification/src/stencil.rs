use vstd::prelude::*;
use crate::util::faces::{Bounds, Coord, Faces};

verus! {

/// A rule that gives a cell its next value from the values at fixed offsets
/// around it.
pub struct Stencil<Operation, const GRID_DIMENSION: usize, const NEIGHBORHOOD_SIZE: usize> {
    operation: Operation,
    offsets: [Coord<GRID_DIMENSION>; NEIGHBORHOOD_SIZE],
}

/// How far the first `n` of `offsets` reach below a cell along axis `d`: the
/// largest `-o[d]`, and 0 where none is negative.
pub open spec fn reach_down<const GRID_DIMENSION: usize, const NEIGHBORHOOD_SIZE: usize>(
    offsets: [Coord<GRID_DIMENSION>; NEIGHBORHOOD_SIZE],
    d: int,
    n: int,
) -> int
    decreases n,
{
    if n <= 0 {
        0
    } else {
        let rest = reach_down(offsets, d, n - 1);
        let here = -(offsets[n - 1][d] as int);
        if here > rest {
            here
        } else {
            rest
        }
    }
}

/// How far the first `n` of `offsets` reach above a cell along axis `d`: the
/// largest `o[d]`, and 0 where none is positive.
pub open spec fn reach_up<const GRID_DIMENSION: usize, const NEIGHBORHOOD_SIZE: usize>(
    offsets: [Coord<GRID_DIMENSION>; NEIGHBORHOOD_SIZE],
    d: int,
    n: int,
) -> int
    decreases n,
{
    if n <= 0 {
        0
    } else {
        let rest = reach_up(offsets, d, n - 1);
        let here = offsets[n - 1][d] as int;
        if here > rest {
            here
        } else {
            rest
        }
    }
}

/// The slopes of a stencil with the given offsets: along each axis, how far
/// the offsets reach below a cell and how far above.
pub open spec fn slopes_of<const GRID_DIMENSION: usize, const NEIGHBORHOOD_SIZE: usize>(
    offsets: [Coord<GRID_DIMENSION>; NEIGHBORHOOD_SIZE],
) -> Faces {
    Faces {
        lo: Seq::new(
            GRID_DIMENSION as nat,
            |d: int| reach_down(offsets, d, NEIGHBORHOOD_SIZE as int),
        ),
        hi: Seq::new(GRID_DIMENSION as nat, |d: int| reach_up(offsets, d, NEIGHBORHOOD_SIZE as int)),
    }
}

/// No offset reaches further than the slopes say.
pub proof fn lemma_reach_covers<const GRID_DIMENSION: usize, const NEIGHBORHOOD_SIZE: usize>(
    offsets: [Coord<GRID_DIMENSION>; NEIGHBORHOOD_SIZE],
    d: int,
    n: int,
    i: int,
)
    requires
        0 <= i < n,
    ensures
        -reach_down(offsets, d, n) <= offsets[i][d] <= reach_up(offsets, d, n),
        0 <= reach_down(offsets, d, n),
        0 <= reach_up(offsets, d, n),
    decreases n,
{
    if i < n - 1 {
        lemma_reach_covers(offsets, d, n - 1, i);
    } else {
        lemma_reach_nonnegative(offsets, d, n - 1);
    }
}

/// Slopes are never negative.
pub proof fn lemma_reach_nonnegative<const GRID_DIMENSION: usize, const NEIGHBORHOOD_SIZE: usize>(
    offsets: [Coord<GRID_DIMENSION>; NEIGHBORHOOD_SIZE],
    d: int,
    n: int,
)
    ensures
        0 <= reach_down(offsets, d, n),
        0 <= reach_up(offsets, d, n),
    decreases n,
{
    if n > 0 {
        lemma_reach_nonnegative(offsets, d, n - 1);
    }
}

impl<Operation, const GRID_DIMENSION: usize, const NEIGHBORHOOD_SIZE: usize> Stencil<
    Operation,
    GRID_DIMENSION,
    NEIGHBORHOOD_SIZE,
> {
    /// The offsets at which the rule reads.
    pub closed spec fn reads_at(&self) -> [Coord<GRID_DIMENSION>; NEIGHBORHOOD_SIZE] {
        self.offsets
    }

    /// The rule itself.
    pub closed spec fn rule(&self) -> Operation {
        self.operation
    }

    pub fn new(offsets: [Coord<GRID_DIMENSION>; NEIGHBORHOOD_SIZE], operation: Operation) -> (r:
        Self)
        ensures
            r.reads_at() == offsets,
            r.rule() == operation,
    {
        Stencil { operation, offsets }
    }

    /// The offsets at which the rule reads.
    pub fn offsets(&self) -> (r: &[Coord<GRID_DIMENSION>; NEIGHBORHOOD_SIZE])
        ensures
            *r == self.reads_at(),
    {
        &self.offsets
    }

    /// Along each axis, how far the offsets reach below a cell and how far
    /// above: the number of cells by which a sloped face moves in one step.
    pub fn slopes(&self) -> (r: Bounds<GRID_DIMENSION>)
        requires
            forall|i: int, d: int|
                0 <= i < NEIGHBORHOOD_SIZE && 0 <= d < GRID_DIMENSION ==> i32::MIN
                    < #[trigger] self.reads_at()[i][d],
        ensures
            crate::util::faces::faces(r) == slopes_of(self.reads_at()),
    {
        let mut r: Bounds<GRID_DIMENSION> = [[0i32; 2]; GRID_DIMENSION];
        let mut d: usize = 0;
        assert(self.reads_at() == self.offsets);
        while d < GRID_DIMENSION
            invariant
                d <= GRID_DIMENSION,
                self.reads_at() == self.offsets,
                forall|i: int, e: int|
                    0 <= i < NEIGHBORHOOD_SIZE && 0 <= e < GRID_DIMENSION ==> i32::MIN
                        < #[trigger] self.reads_at()[i][e],
                forall|e: int|
                    0 <= e < d ==> r[e][0] == reach_down(self.offsets, e, NEIGHBORHOOD_SIZE as int)
                        && r[e][1] == reach_up(self.offsets, e, NEIGHBORHOOD_SIZE as int),
            decreases GRID_DIMENSION - d,
        {
            let mut down: i32 = 0;
            let mut up: i32 = 0;
            let mut i: usize = 0;
            while i < NEIGHBORHOOD_SIZE
                invariant
                    i <= NEIGHBORHOOD_SIZE,
                    d < GRID_DIMENSION,
                    self.reads_at() == self.offsets,
                    forall|j: int, e: int|
                        0 <= j < NEIGHBORHOOD_SIZE && 0 <= e < GRID_DIMENSION ==> i32::MIN
                            < #[trigger] self.reads_at()[j][e],
                    down == reach_down(self.offsets, d as int, i as int),
                    up == reach_up(self.offsets, d as int, i as int),
                decreases NEIGHBORHOOD_SIZE - i,
            {
                let o = self.offsets[i][d];
                assert(i32::MIN < self.reads_at()[i as int][d as int]);
                if -o > down {
                    down = -o;
                }
                if o > up {
                    up = o;
                }
                i += 1;
            }
            r[d] = [down, up];
            d += 1;
        }
        assert(crate::util::faces::faces(r).lo =~= slopes_of(self.offsets).lo);
        assert(crate::util::faces::faces(r).hi =~= slopes_of(self.offsets).hi);
        r
    }

    /// The next value of a cell from the values around it.
    pub fn apply<NumType>(&self, args: &[NumType; NEIGHBORHOOD_SIZE]) -> (r: NumType) where
        Operation: Fn(&[NumType; NEIGHBORHOOD_SIZE]) -> NumType,

        requires
            call_requires(self.rule(), (args,)),
        ensures
            call_ensures(self.rule(), (args,), r),
    {
        (self.operation)(args)
    }
}

} // verus!
