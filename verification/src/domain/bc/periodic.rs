use vstd::prelude::*;
use crate::domain::bc::check::BCCheck;
use crate::domain::view::SliceDomain;
use crate::util::faces::{point, Coord};

verus! {

/// The boundary condition of a field that repeats: outside the box of the
/// field it gives the value that the field has at the wrapped coordinate.
pub struct PeriodicCheck<'a, T: Copy, const GRID_DIMENSION: usize> {
    domain: &'a SliceDomain<'a, T, GRID_DIMENSION>,
}

impl<'a, T: Copy, const GRID_DIMENSION: usize> PeriodicCheck<'a, T, GRID_DIMENSION> {
    #[verifier::type_invariant]
    spec fn inv(self) -> bool {
        self.domain.wf()
    }

    /// The field that repeats.
    pub closed spec fn domain(&self) -> &SliceDomain<'a, T, GRID_DIMENSION> {
        self.domain
    }

    pub fn new(domain: &'a SliceDomain<'a, T, GRID_DIMENSION>) -> (r: Self)
        requires
            domain.wf(),
        ensures
            r.domain() == domain,
    {
        PeriodicCheck { domain }
    }
}

impl<'a, T: Copy, const GRID_DIMENSION: usize> BCCheck<T, GRID_DIMENSION> for PeriodicCheck<
    'a,
    T,
    GRID_DIMENSION,
> {
    open spec fn value_at(&self, p: Seq<int>) -> Option<T> {
        let region = self.domain().region()@;
        if region.contains(p) {
            None
        } else if region.contains(region.periodic_point(p)) {
            Some(self.domain().value_at(region.periodic_point(p)))
        } else {
            None
        }
    }

    fn check(&self, coord: &Coord<GRID_DIMENSION>) -> (r: Option<T>) {
        proof {
            use_type_invariant(self);
        }
        let bound = self.domain.aabb();
        if bound.contains(coord) {
            return None;
        }
        let ghost p = point(*coord);
        let ghost region = bound@;
        assert(self.domain() == self.domain);
        let mut wrapped: Coord<GRID_DIMENSION> = [0i32; GRID_DIMENSION];
        let mut d: usize = 0;
        while d < GRID_DIMENSION
            invariant
                d <= GRID_DIMENSION,
                p == point(*coord),
                region == bound@,
                self.domain().region()@ == region,
                !region.contains(p),
                forall|e: int| 0 <= e < d ==> wrapped[e] == region.wrap(e, p[e]),
            decreases GRID_DIMENSION - d,
        {
            let raw: i64 = coord[d] as i64;
            let lo: i64 = bound.bounds[d][0] as i64;
            let hi: i64 = bound.bounds[d][1] as i64;
            let moved: i64 = if raw < lo {
                hi + 1 + raw
            } else if raw > hi {
                lo + (raw - hi - 1)
            } else {
                raw
            };
            assert(moved == region.wrap(d as int, p[d as int]));
            if moved < lo || moved > hi {
                proof {
                    let q = region.periodic_point(p);
                    assert(q[d as int] == moved);
                    assert(!(region.lo[d as int] <= q[d as int] <= region.hi[d as int]));
                    assert(!region.contains(q));
                    assert(self.domain().region()@ == region);
                    assert(!region.contains(p));
                }
                return None;
            }
            wrapped[d] = moved as i32;
            d += 1;
        }
        assert(point(wrapped) =~= region.periodic_point(p));
        if bound.contains(&wrapped) {
            Some(self.domain.view(&wrapped))
        } else {
            None
        }
    }
}

} // verus!
