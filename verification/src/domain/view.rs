use vstd::prelude::*;
use crate::error::SolveError;
use crate::util::aabb::AABB;
use crate::util::faces::{point, Coord};

verus! {

/// A field on a box: one value per lattice point, kept in row-major order at
/// the front of a buffer that may be longer than the box needs.
pub struct SliceDomain<'a, T, const GRID_DIMENSION: usize> {
    aabb: AABB<GRID_DIMENSION>,
    buffer: &'a mut [T],
}

impl<'a, T: Copy, const GRID_DIMENSION: usize> SliceDomain<'a, T, GRID_DIMENSION> {
    /// The box on which the field lives.
    pub closed spec fn region(&self) -> AABB<GRID_DIMENSION> {
        self.aabb
    }

    /// The whole buffer.
    pub closed spec fn cells(&self) -> Seq<T> {
        self.buffer@
    }

    /// The box can be stored and the buffer has a cell for each of its
    /// points.
    pub open spec fn wf(&self) -> bool {
        &&& self.region()@.storable()
        &&& self.region()@.volume() <= self.cells().len()
    }

    /// The value of the field at `p`.
    pub open spec fn value_at(&self, p: Seq<int>) -> T {
        self.cells()[self.region()@.linear_index(p)]
    }

    /// The field as a map from the points of the box to their values.
    pub open spec fn field(&self) -> Map<Seq<int>, T> {
        Map::new(|p: Seq<int>| self.region()@.contains(p), |p: Seq<int>| self.value_at(p))
    }

    /// A field on `aabb` in `buffer`.  The buffer is `DomainTooSmall` where
    /// it has fewer cells than the box has points.
    pub fn new(aabb: AABB<GRID_DIMENSION>, buffer: &'a mut [T]) -> (r: Result<Self, SolveError>)
        requires
            aabb@.storable(),
        ensures
            r is Ok <==> aabb@.volume() <= old(buffer)@.len(),
            r is Err ==> r->Err_0 == SolveError::DomainTooSmall,
            r is Ok ==> (r->Ok_0).wf() && (r->Ok_0).region() == aabb,
            r is Ok ==> (r->Ok_0).cells() == old(buffer)@,
    {
        if buffer.len() < aabb.buffer_size() {
            return Err(SolveError::DomainTooSmall);
        }
        Ok(SliceDomain { aabb, buffer })
    }

    /// The box on which the field lives.
    pub fn aabb(&self) -> (r: &AABB<GRID_DIMENSION>)
        ensures
            *r == self.region(),
    {
        &self.aabb
    }

    /// The whole buffer.
    pub fn buffer(&self) -> (r: &[T])
        ensures
            r@ == self.cells(),
    {
        &*self.buffer
    }

    /// The whole buffer, to be written.
    pub fn buffer_mut(&mut self) -> (r: &mut [T])
        ensures
            r@ == old(self).cells(),
            final(self).cells() == final(r)@,
            final(self).region() == old(self).region(),
    {
        &mut *self.buffer
    }

    /// Move the field to another box that the buffer can hold.  The cells
    /// stay as they are.
    pub fn set_aabb(&mut self, aabb: AABB<GRID_DIMENSION>)
        requires
            aabb@.storable(),
            aabb@.volume() <= old(self).cells().len(),
        ensures
            final(self).wf(),
            final(self).region() == aabb,
            final(self).cells() == old(self).cells(),
    {
        self.aabb = aabb;
    }

    /// The value of the field at `coord`.
    pub fn view(&self, coord: &Coord<GRID_DIMENSION>) -> (r: T)
        requires
            self.wf(),
            self.region()@.contains(point(*coord)),
        ensures
            r == self.value_at(point(*coord)),
    {
        let i = self.aabb.coord_to_linear(coord);
        self.buffer[i]
    }

    /// Give the field the value `value` at `coord`.
    pub fn set(&mut self, coord: &Coord<GRID_DIMENSION>, value: T)
        requires
            old(self).wf(),
            old(self).region()@.contains(point(*coord)),
        ensures
            final(self).wf(),
            final(self).region() == old(self).region(),
            final(self).cells() == old(self).cells().update(
                old(self).region()@.linear_index(point(*coord)),
                value,
            ),
    {
        let i = self.aabb.coord_to_linear(coord);
        self.buffer[i] = value;
    }

    /// Give the cell at row-major position `index` the value `value`.
    pub fn set_cell(&mut self, index: usize, value: T)
        requires
            old(self).wf(),
            index < old(self).region()@.volume(),
        ensures
            final(self).wf(),
            final(self).region() == old(self).region(),
            final(self).cells() == old(self).cells().update(index as int, value),
    {
        self.buffer[index] = value;
    }

    /// Fill the field from `other`, which covers its box: at every point of
    /// the box the field takes the value that `other` has there.
    pub fn from_superset(&mut self, other: &SliceDomain<'_, T, GRID_DIMENSION>)
        requires
            old(self).wf(),
            other.wf(),
            other.region()@.encloses(old(self).region()@),
        ensures
            final(self).wf(),
            final(self).region() == old(self).region(),
            final(self).cells().len() == old(self).cells().len(),
            forall|p: Seq<int>|
                final(self).region()@.contains(p) ==> #[trigger] final(self).value_at(p)
                    == other.value_at(p),
            forall|i: int|
                old(self).region()@.volume() <= i < old(self).cells().len() ==> final(self).cells()[i]
                    == old(self).cells()[i],
    {
        let n = self.aabb.buffer_size();
        let ghost region = self.aabb;
        let ghost target = self.aabb@;
        let ghost start = self.buffer@;
        let mut i: usize = 0;
        while i < n
            invariant
                i <= n,
                n == target.volume(),
                self.aabb == region,
                target == region@,
                target.storable(),
                self.buffer@.len() == start.len(),
                n <= start.len(),
                other.wf(),
                other.region()@.encloses(target),
                forall|p: Seq<int>|
                    target.contains(p) && 0 <= target.linear_index(p) < i
                        ==> self.buffer@[#[trigger] target.linear_index(p)] == other.value_at(p),
                forall|j: int| n <= j < start.len() ==> self.buffer@[j] == start[j],
            decreases n - i,
        {
            let coord = self.aabb.linear_to_coord(i);
            proof {
                let c = point(coord);
                assert forall|d: int| 0 <= d < c.len() implies other.region()@.lo[d] <= #[trigger] c[d]
                    <= other.region()@.hi[d] by {
                    assert(target.lo[d] <= c[d] <= target.hi[d]);
                    assert(other.region()@.lo[d] <= target.lo[d]);
                    assert(target.hi[d] <= other.region()@.hi[d]);
                }
            }
            let value = other.view(&coord);
            let ghost before = self.buffer@;
            self.buffer[i] = value;
            proof {
                assert forall|p: Seq<int>|
                    target.contains(p) && 0 <= target.linear_index(p) < i + 1
                    implies self.buffer@[#[trigger] target.linear_index(p)] == other.value_at(p) by {
                    target.lemma_offset_within(p);
                    if target.linear_index(p) == i {
                        target.lemma_linear_index_injective(p, point(coord));
                    } else {
                        assert(before[target.linear_index(p)] == other.value_at(p));
                    }
                }
            }
            i += 1;
        }
        proof {
            assert forall|p: Seq<int>| self.region()@.contains(p) implies #[trigger] self.value_at(p)
                == other.value_at(p) by {
                target.lemma_offset_within(p);
            }
        }
    }

    /// Copy `other`, whose box lies in the box of the field, into the field:
    /// at every point of `other` the field takes the value that `other` has
    /// there, and it keeps its value everywhere else.
    pub fn set_subdomain(&mut self, other: &SliceDomain<'_, T, GRID_DIMENSION>)
        requires
            old(self).wf(),
            other.wf(),
            old(self).region()@.encloses(other.region()@),
        ensures
            final(self).wf(),
            final(self).region() == old(self).region(),
            final(self).cells().len() == old(self).cells().len(),
            forall|p: Seq<int>|
                other.region()@.contains(p) ==> #[trigger] final(self).value_at(p) == other.value_at(
                    p,
                ),
            forall|p: Seq<int>|
                old(self).region()@.contains(p) && !other.region()@.contains(p)
                    ==> #[trigger] final(self).value_at(p) == old(self).value_at(p),
    {
        let n = other.aabb.buffer_size();
        let ghost region = self.aabb;
        let ghost whole = self.aabb@;
        let ghost part = other.aabb@;
        let ghost start = self.buffer@;
        let mut i: usize = 0;
        while i < n
            invariant
                i <= n,
                n == part.volume(),
                self.aabb == region,
                whole == region@,
                part == other.aabb@,
                whole.storable(),
                whole.volume() <= start.len(),
                self.buffer@.len() == start.len(),
                other.wf(),
                whole.encloses(part),
                forall|p: Seq<int>|
                    part.contains(p) && 0 <= part.linear_index(p) < i
                        ==> self.buffer@[#[trigger] whole.linear_index(p)] == other.value_at(p),
                forall|p: Seq<int>|
                    whole.contains(p) && !(part.contains(p) && 0 <= part.linear_index(p) < i)
                        ==> self.buffer@[#[trigger] whole.linear_index(p)]
                        == start[whole.linear_index(p)],
            decreases n - i,
        {
            let coord = other.aabb.linear_to_coord(i);
            proof {
                let c = point(coord);
                Self::lemma_inside(whole, part, c);
                whole.lemma_offset_within(c);
            }
            let value = other.view(&coord);
            let at = self.aabb.coord_to_linear(&coord);
            let ghost before = self.buffer@;
            self.buffer[at] = value;
            proof {
                let c = point(coord);
                assert forall|p: Seq<int>|
                    part.contains(p) && 0 <= part.linear_index(p) < i + 1
                    implies self.buffer@[#[trigger] whole.linear_index(p)] == other.value_at(p) by {
                    Self::lemma_inside(whole, part, p);
                    whole.lemma_offset_within(p);
                    part.lemma_offset_within(p);
                    if part.linear_index(p) == i {
                        part.lemma_linear_index_injective(p, c);
                        assert(whole.linear_index(p) == at);
                    } else {
                        if whole.linear_index(p) == at {
                            whole.lemma_linear_index_injective(p, c);
                        }
                        assert(before[whole.linear_index(p)] == other.value_at(p));
                    }
                }
                assert forall|p: Seq<int>|
                    whole.contains(p) && !(part.contains(p) && 0 <= part.linear_index(p) < i + 1)
                    implies self.buffer@[#[trigger] whole.linear_index(p)]
                    == start[whole.linear_index(p)] by {
                    whole.lemma_offset_within(p);
                    if whole.linear_index(p) == at {
                        whole.lemma_linear_index_injective(p, c);
                    }
                    assert(before[whole.linear_index(p)] == start[whole.linear_index(p)]);
                }
            }
            i += 1;
        }
        proof {
            assert forall|p: Seq<int>| other.region()@.contains(p) implies #[trigger] self.value_at(p)
                == other.value_at(p) by {
                part.lemma_offset_within(p);
            }
            assert forall|p: Seq<int>|
                whole.contains(p) && !other.region()@.contains(p) implies #[trigger] self.value_at(p)
                == start[whole.linear_index(p)] by {}
        }
    }

    /// A point of a box lies in every box that encloses it.
    proof fn lemma_inside(
        whole: crate::util::faces::Faces,
        part: crate::util::faces::Faces,
        p: Seq<int>,
    )
        requires
            whole.shaped(part.lo.len()),
            part.shaped(part.lo.len()),
            whole.encloses(part),
            part.contains(p),
        ensures
            whole.contains(p),
    {
        assert forall|d: int| 0 <= d < p.len() implies whole.lo[d] <= #[trigger] p[d]
            <= whole.hi[d] by {
            assert(part.lo[d] <= p[d] <= part.hi[d]);
            assert(whole.lo[d] <= part.lo[d]);
            assert(part.hi[d] <= whole.hi[d]);
        }
    }
}

} // verus!
