use vstd::prelude::*;
use crate::domain::bc::check::BCCheck;
use crate::util::aabb::AABB;
use crate::util::faces::{point, Coord};

verus! {

/// The boundary condition that gives one value everywhere outside a box.
pub struct ConstantCheck<T, const GRID_DIMENSION: usize> {
    value: T,
    bound: AABB<GRID_DIMENSION>,
}

impl<T, const GRID_DIMENSION: usize> ConstantCheck<T, GRID_DIMENSION> {
    /// The value given outside the box.
    pub closed spec fn value(&self) -> T {
        self.value
    }

    /// The box inside which nothing is given.
    pub closed spec fn bound(&self) -> AABB<GRID_DIMENSION> {
        self.bound
    }

    pub fn new(value: T, bound: AABB<GRID_DIMENSION>) -> (r: Self)
        ensures
            r.value() == value,
            r.bound() == bound,
    {
        ConstantCheck { value, bound }
    }
}

impl<T: Copy, const GRID_DIMENSION: usize> BCCheck<T, GRID_DIMENSION> for ConstantCheck<
    T,
    GRID_DIMENSION,
> {
    open spec fn value_at(&self, p: Seq<int>) -> Option<T> {
        if self.bound()@.contains(p) {
            None
        } else {
            Some(self.value())
        }
    }

    fn check(&self, coord: &Coord<GRID_DIMENSION>) -> (r: Option<T>) {
        if self.bound.contains(coord) {
            None
        } else {
            Some(self.value)
        }
    }
}

} // verus!
