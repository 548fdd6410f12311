use vstd::prelude::*;
use crate::util::faces::{point, Coord};

verus! {

/// A boundary condition: it knows the value of the field at every coordinate
/// outside the grid and has nothing to say inside.
pub trait BCCheck<T, const GRID_DIMENSION: usize> {
    /// The value of the field at `p`, or `None` where `p` lies in the grid.
    /// A boundary condition that does not say what it knows knows nothing.
    open spec fn value_at(&self, p: Seq<int>) -> Option<T> {
        None
    }

    /// The value of the field at `coord`, or `None` where `coord` lies in
    /// the grid.  Asking twice gives the same answer.
    fn check(&self, coord: &Coord<GRID_DIMENSION>) -> (r: Option<T>)
        ensures
            r == self.value_at(point(*coord)),
    ;
}

} // verus!
