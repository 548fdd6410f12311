use vstd::prelude::*;
use vstd::math::max;
use crate::fft_solver::ap_plan::{APPlan, NodeId, PlanNode};
use crate::util::indexing::{lemma_complex_suffix_product_bounds, lemma_suffix_product_positive};

verus! {

impl<const GRID_DIMENSION: usize> APPlan<GRID_DIMENSION> {
    /// Cells of an arena that a boundary node takes for itself: two real
    /// buffers of its region in the real arena, the spectrum of its region in
    /// the complex arena.
    pub open spec fn own(&self, k: int, complex: bool) -> int {
        if complex {
            self.nodes@[k].complex_cells()
        } else {
            2 * self.nodes@[k].real_cells()
        }
    }

    /// Cells of an arena that a node takes for itself when it runs in the
    /// buffers of the node before it: no real cells, and its spectrum.
    pub open spec fn own_carried(&self, k: int, complex: bool) -> int {
        if complex {
            self.nodes@[k].complex_cells()
        } else {
            0
        }
    }

    /// Cells of an arena that the nodes below node `k` need while `k` runs.
    /// The boundary nodes of a periodic solve run side by side, so their needs
    /// add up; the node after its time cut runs once they are done, in the
    /// space they used.  The two nodes of a repeat node run one after the other.
    pub open spec fn below(&self, k: int, complex: bool) -> int
        decreases k, k + 1,
    {
        if k < 0 || k >= self.nodes@.len() {
            0
        } else {
            match self.nodes@[k] {
                PlanNode::PeriodicSolve(n) => {
                    let side_by_side = if n.boundary_nodes.start <= n.boundary_nodes.end <= k {
                        self.spread(k, n.boundary_nodes.start as int, n.boundary_nodes.end as int, complex)
                    } else {
                        0
                    };
                    let after = match n.time_cut {
                        Some(t) => if t < k {
                            self.own_carried(t as int, complex) + self.below(t as int, complex)
                        } else {
                            0
                        },
                        None => 0,
                    };
                    max(side_by_side, after)
                },
                PlanNode::Repeat(r) => {
                    let first = if r.node < k {
                        self.own_carried(r.node as int, complex) + self.below(r.node as int, complex)
                    } else {
                        0
                    };
                    let second = match r.next {
                        Some(x) => if x < k {
                            self.own_carried(x as int, complex) + self.below(x as int, complex)
                        } else {
                            0
                        },
                        None => 0,
                    };
                    max(first, second)
                },
                _ => 0,
            }
        }
    }

    /// Cells of an arena that the nodes `from..to`, which lie below node `k`,
    /// need when they run side by side: each takes what it needs for itself
    /// and for the nodes below it.
    pub open spec fn spread(&self, k: int, from: int, to: int, complex: bool) -> int
        decreases k, to - from,
    {
        if from < 0 || from >= to || to > k {
            0
        } else {
            self.spread(k, from, to - 1, complex) + self.own(to - 1, complex) + self.below(
                to - 1,
                complex,
            )
        }
    }

    /// Cells of an arena that node `k` needs when it is placed as a boundary
    /// node.
    pub open spec fn total(&self, k: int, complex: bool) -> int {
        self.own(k, complex) + self.below(k, complex)
    }

    /// The scratch memory of every node can be addressed.
    pub open spec fn scratch_fits(&self) -> bool {
        forall|k: int, complex: bool|
            0 <= k < self.nodes@.len() ==> #[trigger] self.total(k, complex) <= usize::MAX
    }

    /// A node takes at least no cells for itself.
    pub proof fn lemma_own_nonnegative(&self, k: int, complex: bool)
        requires
            self.wf(),
            0 <= k < self.nodes@.len(),
        ensures
            0 <= self.own_carried(k, complex) <= self.own(k, complex),
            self.nodes@[k].complex_cells() <= self.nodes@[k].real_cells(),
            self.nodes@[k].real_cells() <= usize::MAX,
    {
        assert(self.node_ok(k));
        match self.nodes@[k].buffer_box() {
            Some(b) => {
                assert(b.storable());
                assert forall|d: int| 0 <= d < b.sizes().len() implies #[trigger] b.sizes()[d]
                    >= 1 by {
                    assert(b.lo[d] <= b.hi[d]);
                }
                lemma_suffix_product_positive(b.sizes(), 0);
                lemma_complex_suffix_product_bounds(b.sizes(), 0);
            },
            None => {},
        }
    }

    /// The nodes below a node need at least no cells.
    pub proof fn lemma_below_nonnegative(&self, k: int, complex: bool)
        requires
            self.wf(),
        ensures
            0 <= self.below(k, complex),
        decreases k, k + 1,
    {
        if 0 <= k < self.nodes@.len() {
            assert(self.node_ok(k));
            match self.nodes@[k] {
                PlanNode::PeriodicSolve(n) => {
                    self.lemma_spread_monotone(
                        k,
                        n.boundary_nodes.start as int,
                        n.boundary_nodes.start as int,
                        n.boundary_nodes.end as int,
                        complex,
                    );
                    match n.time_cut {
                        Some(t) => {
                            self.lemma_below_nonnegative(t as int, complex);
                            self.lemma_own_nonnegative(t as int, complex);
                        },
                        None => {},
                    }
                },
                PlanNode::Repeat(r) => {
                    self.lemma_below_nonnegative(r.node as int, complex);
                    self.lemma_own_nonnegative(r.node as int, complex);
                    match r.next {
                        Some(x) => {
                            self.lemma_below_nonnegative(x as int, complex);
                            self.lemma_own_nonnegative(x as int, complex);
                        },
                        None => {},
                    }
                },
                _ => {},
            }
        }
    }

    /// Side by side, more nodes need no less.
    pub proof fn lemma_spread_monotone(&self, k: int, from: int, mid: int, to: int, complex: bool)
        requires
            self.wf(),
            0 <= from <= mid <= to <= k < self.nodes@.len(),
        ensures
            0 <= self.spread(k, from, mid, complex) <= self.spread(k, from, to, complex),
        decreases k, to - from,
    {
        if from < mid {
            self.lemma_spread_monotone(k, from, from, mid - 1, complex);
            self.lemma_below_nonnegative(mid - 1, complex);
            self.lemma_own_nonnegative(mid - 1, complex);
        }
        if mid < to {
            self.lemma_spread_monotone(k, from, mid, to - 1, complex);
            self.lemma_below_nonnegative(to - 1, complex);
            self.lemma_own_nonnegative(to - 1, complex);
        }
    }

    /// What a node needs side by side with the nodes before it is what they
    /// need plus what it needs.
    pub proof fn lemma_spread_step(&self, k: int, from: int, at: int, complex: bool)
        requires
            0 <= from <= at < k,
        ensures
            self.spread(k, from, at + 1, complex) == self.spread(k, from, at, complex)
                + self.total(at, complex),
    {
    }

    /// A periodic solve needs below it at least what its boundary nodes need
    /// side by side, and at least what the node after its time cut needs.
    pub proof fn lemma_below_periodic(&self, k: int, complex: bool)
        requires
            self.wf(),
            0 <= k < self.nodes@.len(),
            self.nodes@[k] is PeriodicSolve,
        ensures
            ({
                let n = self.nodes@[k]->PeriodicSolve_0;
                &&& self.below(k, complex) >= self.spread(
                    k,
                    n.boundary_nodes.start as int,
                    n.boundary_nodes.end as int,
                    complex,
                )
                &&& n.time_cut is Some ==> self.below(k, complex) >= self.own_carried(
                    n.time_cut->0 as int,
                    complex,
                ) + self.below(n.time_cut->0 as int, complex)
                &&& self.below(k, complex) == max(
                    self.spread(
                        k,
                        n.boundary_nodes.start as int,
                        n.boundary_nodes.end as int,
                        complex,
                    ),
                    if n.time_cut is Some {
                        self.own_carried(n.time_cut->0 as int, complex) + self.below(
                            n.time_cut->0 as int,
                            complex,
                        )
                    } else {
                        0
                    },
                )
            }),
    {
        assert(self.node_ok(k));
    }
}

} // verus!
