use vstd::prelude::*;
use crate::fft_solver::ap_plan::{APPlan, NodeId, PlanNode};
use crate::fft_solver::ap_solver::{node_steps, periodic_steps, SolveStep};
use crate::solver::trapezoid::face_travel;
use crate::util::aabb::AABB;
use crate::util::faces::{faces, Bounds, Faces};
use std::ops::Range;

verus! {

/// What a run knows of its two domains without looking at the field: the
/// box of each, and the number of cells that each buffer has at least.
pub struct Regions {
    pub input: Faces,
    pub output: Faces,
    pub cells: int,
}

impl Regions {
    /// The two domains exchanged.
    pub open spec fn swapped(self) -> Regions {
        Regions { input: self.output, output: self.input, cells: self.cells }
    }

    /// Both domains on the box `a`.
    pub open spec fn both(self, a: Faces) -> Regions {
        Regions { input: a, output: a, cells: self.cells }
    }

    /// Both buffers can hold the box `a`.
    pub open spec fn can_hold(self, a: Faces) -> bool {
        a.storable() && a.volume() <= self.cells
    }
}

/// Node `c` is one of `nodes`.
pub open spec fn among(nodes: Range<usize>, c: int) -> bool {
    nodes.start <= c < nodes.end
}

/// No face moves outward, and the box is still a box after `steps` steps.
pub open spec fn direct_ready(region: Faces, per_step: Faces, steps: int) -> bool {
    &&& forall|d: int| 0 <= d < region.lo.len() ==> 0 <= #[trigger] per_step.lo[d]
    &&& forall|d: int| 0 <= d < region.lo.len() ==> 0 <= #[trigger] per_step.hi[d]
    &&& region.shrunk(per_step, steps).valid()
}

/// The two domains after a direct solve of `steps` steps: the result lives
/// on the box that is left, and the other domain holds the step before.
pub open spec fn after_direct(at: Regions, per_step: Faces, steps: int) -> Regions {
    Regions {
        input: if steps == 0 {
            at.output
        } else {
            at.input.shrunk(per_step, steps - 1)
        },
        output: at.input.shrunk(per_step, steps),
        cells: at.cells,
    }
}

impl<const GRID_DIMENSION: usize> APPlan<GRID_DIMENSION> {
    /// The box in which node `k` runs.
    pub open spec fn run_box(&self, k: int) -> Faces {
        self.nodes@[k].buffer_box()->0
    }

    /// The box on which the result of node `k` lives: its output region or,
    /// after a time cut, that of the node that takes over.
    pub open spec fn result_box(&self, k: int) -> Faces
        decreases k,
    {
        if k < 0 || k >= self.nodes@.len() {
            Faces { lo: Seq::empty(), hi: Seq::empty() }
        } else {
            match self.nodes@[k] {
                PlanNode::PeriodicSolve(n) => match n.time_cut {
                    Some(t) => if t < k {
                        self.result_box(t as int)
                    } else {
                        n.output_aabb@
                    },
                    None => n.output_aabb@,
                },
                PlanNode::DirectSolve(n) => n.output_aabb@,
                PlanNode::AOBDirectSolve(n) => n.output_aabb@,
                PlanNode::Repeat(_) => Faces { lo: Seq::empty(), hi: Seq::empty() },
            }
        }
    }

    /// The regions of the two domains after the steps `steps[from..]` of a
    /// node before `bound`, or `None` where a step cannot be done: a domain
    /// would have to grow, a copy would read outside its source, or a node
    /// would run out of order.
    pub open spec fn after_steps(
        &self,
        slopes: Faces,
        steps: Seq<SolveStep<GRID_DIMENSION>>,
        from: int,
        at: Regions,
        bound: int,
    ) -> Option<Regions>
        decreases bound, steps.len() - from,
    {
        if from < 0 || from >= steps.len() || bound < 0 || bound > self.nodes@.len() {
            Some(at)
        } else {
            let next = match steps[from] {
                SolveStep::Swap => Some(at.swapped()),
                SolveStep::ShrinkInput { aabb } => if at.output.encloses(aabb@) && at.can_hold(aabb@) {
                    Some(at.both(aabb@))
                } else {
                    None
                },
                SolveStep::ShrinkOutput { aabb } => if at.input.encloses(aabb@) && at.can_hold(aabb@) {
                    Some(at.both(aabb@))
                } else {
                    None
                },
                SolveStep::Convolve { node, convolution_id } => if at.input == at.output {
                    Some(at)
                } else {
                    None
                },
                SolveStep::Boundary { nodes } => if nodes.start <= nodes.end <= bound && (forall|
                    c: int,
                | #[trigger]
                    among(nodes, c) ==> self.boundary_node_runs(slopes, c, at, bound)) {
                    Some(at)
                } else {
                    None
                },
                SolveStep::Direct { sloped_sides, steps } => {
                    let per_step = slopes.times(faces(sloped_sides));
                    if at.input == at.output && direct_ready(at.input, per_step, steps as int) {
                        Some(after_direct(at, per_step, steps as int))
                    } else {
                        None
                    }
                },
                SolveStep::AOBDirect { input_aabb, sloped_sides, steps } => {
                    let per_step = slopes.times(faces(sloped_sides));
                    if at.input == at.output && direct_ready(at.input, per_step, steps as int) {
                        Some(after_direct(at, per_step, steps as int))
                    } else {
                        None
                    }
                },
                SolveStep::Continue { node } => if node < bound {
                    self.after_steps(
                        slopes,
                        node_steps(self.nodes@[node as int], node),
                        0,
                        at,
                        node as int,
                    )
                } else {
                    None
                },
            };
            match next {
                Some(then) => self.after_steps(slopes, steps, from + 1, then, bound),
                None => None,
            }
        }
    }

    /// The boundary node `c` of a node `bound` can run while the domains of
    /// that node are `at`: its box lies in the input domain, it runs in two
    /// buffers of its own that are as large as its box, and its result lies
    /// in the output domain.
    pub open spec fn boundary_node_runs(&self, slopes: Faces, c: int, at: Regions, bound: int) -> bool
        decreases bound, 0int,
    {
        if 0 <= c < bound <= self.nodes@.len() {
            let own = Regions {
                input: self.run_box(c),
                output: self.run_box(c),
                cells: self.run_box(c).volume(),
            };
            &&& at.input.encloses(self.run_box(c))
            &&& match self.after_steps(slopes, node_steps(self.nodes@[c], c as usize), 0, own, c) {
                Some(done) => at.output.encloses(done.output),
                None => false,
            }
        } else {
            false
        }
    }

    /// The boundary node `c` reads and writes inside the box `input` of the
    /// periodic solve above it.
    pub open spec fn rim_fits(&self, input: Faces, c: int) -> bool {
        input.encloses(self.run_box(c)) && input.encloses(self.result_box(c))
    }

    /// The regions of node `k` fit together with the stencil slopes `slopes`
    /// and with the regions of the nodes below it.  A direct solve ends on
    /// the box that its steps leave.  The input region of a periodic solve
    /// holds its output region, the box of each boundary node and the result
    /// of each boundary node; its output region holds the box of the node
    /// after the time cut.
    pub open spec fn node_fits(&self, slopes: Faces, k: int) -> bool {
        match self.nodes@[k] {
            PlanNode::PeriodicSolve(n) => {
                &&& n.output_aabb@.valid()
                &&& n.input_aabb@.encloses(n.output_aabb@)
                &&& forall|c: int|
                    n.boundary_nodes.start <= c < n.boundary_nodes.end ==> #[trigger] self.rim_fits(
                        n.input_aabb@,
                        c,
                    )
                &&& n.time_cut is Some ==> n.output_aabb@.encloses(self.run_box(n.time_cut->0 as int))
            },
            PlanNode::DirectSolve(n) => {
                let per_step = slopes.times(faces(n.sloped_sides));
                &&& direct_ready(n.input_aabb@, per_step, n.steps as int)
                &&& n.output_aabb@ == n.input_aabb@.shrunk(per_step, n.steps as int)
            },
            PlanNode::AOBDirectSolve(n) => {
                let per_step = slopes.times(faces(n.sloped_sides));
                &&& direct_ready(n.init_input_aabb@, per_step, n.steps as int)
                &&& n.output_aabb@ == n.init_input_aabb@.shrunk(per_step, n.steps as int)
            },
            PlanNode::Repeat(_) => true,
        }
    }

    /// The regions of all nodes fit together with the stencil slopes.
    pub open spec fn fits_together(&self, slopes: Faces) -> bool {
        &&& slopes.shaped(GRID_DIMENSION as nat)
        &&& forall|k: int| 0 <= k < self.nodes@.len() ==> #[trigger] self.node_fits(slopes, k)
    }

    /// A direct solve whose regions fit can take all its steps.
    proof fn lemma_direct_runs(&self, slopes: Faces, k: int, at: Regions)
        requires
            self.wf(),
            self.fits_together(slopes),
            0 <= k < self.nodes@.len(),
            self.nodes@[k] is DirectSolve || self.nodes@[k] is AOBDirectSolve,
            at.input.encloses(self.run_box(k)),
            self.run_box(k).volume() <= at.cells,
        ensures
            self.after_steps(slopes, node_steps(self.nodes@[k], k as usize), 0, at, k) is Some,
            self.after_steps(slopes, node_steps(self.nodes@[k], k as usize), 0, at, k)->0.output
                == self.result_box(k),
            self.after_steps(slopes, node_steps(self.nodes@[k], k as usize), 0, at, k)->0.cells
                == at.cells,
    {
        assert(self.node_ok(k));
        assert(self.node_fits(slopes, k));
        let steps = node_steps(self.nodes@[k], k as usize);
        let start = self.run_box(k);
        let a1 = at.swapped();
        let a2 = a1.both(start);
        let (sloped_sides, count) = match self.nodes@[k] {
            PlanNode::DirectSolve(n) => (n.sloped_sides, n.steps),
            PlanNode::AOBDirectSolve(n) => (n.sloped_sides, n.steps),
            _ => arbitrary(),
        };
        let a3 = after_direct(a2, slopes.times(faces(sloped_sides)), count as int);
        assert(steps.len() == 3);
        assert(self.after_steps(slopes, steps, 3, a3, k) == Some(a3));
        assert(self.after_steps(slopes, steps, 2, a2, k) == self.after_steps(slopes, steps, 3, a3, k));
        assert(self.after_steps(slopes, steps, 1, a1, k) == self.after_steps(slopes, steps, 2, a2, k));
        assert(self.after_steps(slopes, steps, 0, at, k) == self.after_steps(slopes, steps, 1, a1, k));
    }

    /// In a plan whose regions fit together, every node below the root can
    /// take all its steps, whatever domains it is handed, as long as the
    /// input domain holds its box and the buffers are large enough for it;
    /// the output domain ends on the box of its result.
    pub proof fn lemma_node_runs(&self, slopes: Faces, k: int, at: Regions)
        requires
            self.wf(),
            self.fits_together(slopes),
            0 <= k < self.nodes@.len(),
            k != self.root,
            at.input.encloses(self.run_box(k)),
            self.run_box(k).volume() <= at.cells,
        ensures
            self.after_steps(slopes, node_steps(self.nodes@[k], k as usize), 0, at, k) is Some,
            self.after_steps(slopes, node_steps(self.nodes@[k], k as usize), 0, at, k)->0.output
                == self.result_box(k),
            self.after_steps(slopes, node_steps(self.nodes@[k], k as usize), 0, at, k)->0.cells
                == at.cells,
        decreases k,
    {
        assert(self.node_ok(k));
        assert(self.node_fits(slopes, k));
        let steps = node_steps(self.nodes@[k], k as usize);
        match self.nodes@[k] {
            PlanNode::PeriodicSolve(n) => {
                let input = n.input_aabb@;
                let output = n.output_aabb@;
                let a1 = at.swapped();
                let a2 = a1.both(input);
                let a5 = a2.swapped();
                let a6 = a5.both(output);
                assert forall|c: int| #[trigger]
                    among(n.boundary_nodes, c) implies self.boundary_node_runs(slopes, c, a2, k) by {
                    assert(self.node_ok(c));
                    assert(self.rim_fits(input, c));
                    let own = Regions {
                        input: self.run_box(c),
                        output: self.run_box(c),
                        cells: self.run_box(c).volume(),
                    };
                    assert(own.input.encloses(self.run_box(c)));
                    self.lemma_node_runs(slopes, c, own);
                }
                input.lemma_inner_storable(output);
                assert(steps.len() >= 6);
                assert(steps[0] == SolveStep::<GRID_DIMENSION>::Swap);
                assert(steps[1] == SolveStep::ShrinkInput { aabb: n.input_aabb });
                assert(steps[2] == SolveStep::<GRID_DIMENSION>::Convolve {
                    node: k as usize,
                    convolution_id: n.convolution_id,
                });
                assert(steps[3] == SolveStep::<GRID_DIMENSION>::Boundary { nodes: n.boundary_nodes });
                assert(steps[4] == SolveStep::<GRID_DIMENSION>::Swap);
                assert(steps[5] == SolveStep::ShrinkOutput { aabb: n.output_aabb });
                let end = match n.time_cut {
                    Some(t) => {
                        assert(steps.len() == 8);
                        assert(steps[6] == SolveStep::<GRID_DIMENSION>::Swap);
                        assert(steps[7] == SolveStep::<GRID_DIMENSION>::Continue { node: t });
                        let a7 = a6.swapped();
                        assert(self.node_ok(t as int));
                        self.lemma_node_runs(slopes, t as int, a7);
                        let after = self.after_steps(
                            slopes,
                            node_steps(self.nodes@[t as int], t),
                            0,
                            a7,
                            t as int,
                        );
                        let a8 = after->0;
                        assert(self.after_steps(slopes, steps, 8, a8, k) == Some(a8));
                        assert(self.after_steps(slopes, steps, 7, a7, k) == self.after_steps(
                            slopes,
                            steps,
                            8,
                            a8,
                            k,
                        ));
                        assert(self.after_steps(slopes, steps, 6, a6, k) == self.after_steps(
                            slopes,
                            steps,
                            7,
                            a7,
                            k,
                        ));
                        a8
                    },
                    None => {
                        assert(steps.len() == 6);
                        assert(self.after_steps(slopes, steps, 6, a6, k) == Some(a6));
                        a6
                    },
                };
                assert(self.after_steps(slopes, steps, 5, a5, k) == self.after_steps(
                    slopes,
                    steps,
                    6,
                    a6,
                    k,
                ));
                assert(self.after_steps(slopes, steps, 4, a2, k) == self.after_steps(
                    slopes,
                    steps,
                    5,
                    a5,
                    k,
                ));
                assert(self.after_steps(slopes, steps, 3, a2, k) == self.after_steps(
                    slopes,
                    steps,
                    4,
                    a2,
                    k,
                ));
                assert(self.after_steps(slopes, steps, 2, a2, k) == self.after_steps(
                    slopes,
                    steps,
                    3,
                    a2,
                    k,
                ));
                assert(self.after_steps(slopes, steps, 1, a1, k) == self.after_steps(
                    slopes,
                    steps,
                    2,
                    a2,
                    k,
                ));
                assert(self.after_steps(slopes, steps, 0, at, k) == self.after_steps(
                    slopes,
                    steps,
                    1,
                    a1,
                    k,
                ));
            },
            _ => {
                self.lemma_direct_runs(slopes, k, at);
            },
        }
    }
}

/// Whether a direct solve of `steps` steps from `input` is sound and ends on
/// `output`: no face moves outward, every step leaves a box, and the box that
/// is left at the end is `output`.
pub fn direct_fits<const GRID_DIMENSION: usize>(
    input: &AABB<GRID_DIMENSION>,
    output: &AABB<GRID_DIMENSION>,
    sloped_sides: &Bounds<GRID_DIMENSION>,
    stencil_slopes: &Bounds<GRID_DIMENSION>,
    steps: usize,
) -> (r: bool)
    ensures
        r == (direct_ready(
            input@,
            faces(*stencil_slopes).times(faces(*sloped_sides)),
            steps as int,
        ) && output@ == input@.shrunk(
            faces(*stencil_slopes).times(faces(*sloped_sides)),
            steps as int,
        )),
{
    let ghost per_step = faces(*stencil_slopes).times(faces(*sloped_sides));
    let ghost goal = input@.shrunk(per_step, steps as int);
    let mut d: usize = 0;
    while d < GRID_DIMENSION
        invariant
            d <= GRID_DIMENSION,
            per_step == faces(*stencil_slopes).times(faces(*sloped_sides)),
            goal == input@.shrunk(per_step, steps as int),
            forall|e: int| 0 <= e < d ==> 0 <= #[trigger] per_step.lo[e],
            forall|e: int| 0 <= e < d ==> 0 <= #[trigger] per_step.hi[e],
            forall|e: int| 0 <= e < d ==> goal.lo[e] <= goal.hi[e],
            forall|e: int| 0 <= e < d ==> output@.lo[e] == goal.lo[e] && output@.hi[e] == goal.hi[e],
        decreases GRID_DIMENSION - d,
    {
        let up = face_travel(stencil_slopes[d][0], sloped_sides[d][0], steps);
        let down = face_travel(stencil_slopes[d][1], sloped_sides[d][1], steps);
        let up_once = face_travel(stencil_slopes[d][0], sloped_sides[d][0], 1);
        let down_once = face_travel(stencil_slopes[d][1], sloped_sides[d][1], 1);
        let lo: i128 = input.bounds[d][0] as i128 + up;
        let hi: i128 = input.bounds[d][1] as i128 - down;
        proof {
            assert(per_step.lo[d as int] == stencil_slopes[d as int][0] * sloped_sides[d as int][0]);
            assert(per_step.hi[d as int] == stencil_slopes[d as int][1] * sloped_sides[d as int][1]);
            assert(up_once == per_step.lo[d as int]);
            assert(down_once == per_step.hi[d as int]);
            assert(goal.lo[d as int] == lo);
            assert(goal.hi[d as int] == hi);
        }
        if up_once < 0 || down_once < 0 || lo > hi {
            return false;
        }
        if output.bounds[d][0] as i128 != lo || output.bounds[d][1] as i128 != hi {
            assert(output@.lo[d as int] != goal.lo[d as int] || output@.hi[d as int]
                != goal.hi[d as int]);
            return false;
        }
        d += 1;
    }
    assert(output@.lo =~= goal.lo);
    assert(output@.hi =~= goal.hi);
    true
}

impl<const GRID_DIMENSION: usize> APPlan<GRID_DIMENSION> {
    /// The box in which node `k` runs, if it is no repeat node.
    pub fn run_aabb(&self, k: NodeId) -> (r: AABB<GRID_DIMENSION>)
        requires
            self.wf(),
            k < self.nodes@.len(),
            k != self.root,
        ensures
            r@ == self.run_box(k as int),
    {
        assert(self.node_ok(k as int));
        match &self.nodes[k] {
            PlanNode::PeriodicSolve(n) => n.input_aabb,
            PlanNode::DirectSolve(n) => n.input_aabb,
            PlanNode::AOBDirectSolve(n) => n.init_input_aabb,
            PlanNode::Repeat(_) => AABB::new([[0i32; 2]; GRID_DIMENSION]),
        }
    }

    /// The box on which the result of node `k` lives: its output region or,
    /// after a time cut, that of the node that takes over.
    pub fn result_aabb(&self, k: NodeId) -> (r: AABB<GRID_DIMENSION>)
        requires
            self.wf(),
            k < self.nodes@.len(),
            k != self.root,
        ensures
            r@ == self.result_box(k as int),
    {
        let mut at: usize = k;
        loop
            invariant
                self.wf(),
                at < self.nodes@.len(),
                at != self.root,
                self.result_box(at as int) == self.result_box(k as int),
            decreases at,
        {
            assert(self.node_ok(at as int));
            match &self.nodes[at] {
                PlanNode::PeriodicSolve(n) => match n.time_cut {
                    Some(t) => {
                        at = t;
                    },
                    None => {
                        return n.output_aabb;
                    },
                },
                PlanNode::DirectSolve(n) => {
                    return n.output_aabb;
                },
                PlanNode::AOBDirectSolve(n) => {
                    return n.output_aabb;
                },
                PlanNode::Repeat(_) => {
                    return AABB::new([[0i32; 2]; GRID_DIMENSION]);
                },
            }
        }
    }

    /// Whether the regions of node `k` fit together with the stencil slopes
    /// and with the regions of the nodes below it.
    pub fn check_node_fits(&self, stencil_slopes: &Bounds<GRID_DIMENSION>, k: NodeId) -> (r: bool)
        requires
            self.wf(),
            k < self.nodes@.len(),
        ensures
            r == self.node_fits(faces(*stencil_slopes), k as int),
    {
        assert(self.node_ok(k as int));
        match &self.nodes[k] {
            PlanNode::PeriodicSolve(n) => {
                if !n.output_aabb.check_validity() || !n.input_aabb.contains_aabb(&n.output_aabb) {
                    return false;
                }
                let mut c: usize = n.boundary_nodes.start;
                while c < n.boundary_nodes.end
                    invariant
                        self.wf(),
                        k < self.nodes@.len(),
                        self.nodes@[k as int] == PlanNode::PeriodicSolve(*n),
                        n.boundary_nodes.start <= c <= n.boundary_nodes.end <= k,
                        !(n.boundary_nodes.start <= self.root < n.boundary_nodes.end),
                        forall|x: int|
                            n.boundary_nodes.start <= x < c ==> #[trigger] self.rim_fits(
                                n.input_aabb@,
                                x,
                            ),
                    decreases n.boundary_nodes.end - c,
                {
                    let reads = self.run_aabb(c);
                    let writes = self.result_aabb(c);
                    if !n.input_aabb.contains_aabb(&reads) || !n.input_aabb.contains_aabb(&writes) {
                        assert(!self.rim_fits(n.input_aabb@, c as int));
                        return false;
                    }
                    c += 1;
                }
                match n.time_cut {
                    Some(t) => {
                        let reads = self.run_aabb(t);
                        n.output_aabb.contains_aabb(&reads)
                    },
                    None => true,
                }
            },
            PlanNode::DirectSolve(n) => direct_fits(
                &n.input_aabb,
                &n.output_aabb,
                &n.sloped_sides,
                stencil_slopes,
                n.steps,
            ),
            PlanNode::AOBDirectSolve(n) => direct_fits(
                &n.init_input_aabb,
                &n.output_aabb,
                &n.sloped_sides,
                stencil_slopes,
                n.steps,
            ),
            PlanNode::Repeat(_) => true,
        }
    }

    /// Whether the regions of all nodes fit together with the stencil
    /// slopes.
    pub fn check_fit(&self, stencil_slopes: &Bounds<GRID_DIMENSION>) -> (r: bool)
        requires
            self.wf(),
        ensures
            r == self.fits_together(faces(*stencil_slopes)),
    {
        let mut k: usize = 0;
        while k < self.nodes.len()
            invariant
                self.wf(),
                k <= self.nodes@.len(),
                forall|j: int|
                    0 <= j < k ==> #[trigger] self.node_fits(faces(*stencil_slopes), j),
            decreases self.nodes@.len() - k,
        {
            if !self.check_node_fits(stencil_slopes, k) {
                return false;
            }
            k += 1;
        }
        true
    }

    /// In a plan whose regions fit together, a periodic solve that the root
    /// runs can take all its steps on domains that hold its input region; the
    /// output domain ends on its input region or, after a time cut, on the box
    /// of what the node that takes over produces.
    pub proof fn lemma_root_node_runs(&self, slopes: Faces, k: int, at: Regions)
        requires
            self.wf(),
            self.fits_together(slopes),
            self.is_child(self.root as int, k),
            at.input.encloses(self.run_box(k)),
            self.run_box(k).volume() <= at.cells,
        ensures
            ({
                let n = self.nodes@[k]->PeriodicSolve_0;
                let done = self.after_steps(slopes, periodic_steps(n, k as usize, false), 0, at, k);
                &&& self.nodes@[k] is PeriodicSolve
                &&& done is Some
                &&& done->0.cells == at.cells
                &&& done->0.output == if n.time_cut is Some {
                    self.result_box(n.time_cut->0 as int)
                } else {
                    n.input_aabb@
                }
            }),
    {
        assert(self.node_ok(self.root as int));
        assert(self.node_ok(k));
        assert(self.node_fits(slopes, k));
        let n = self.nodes@[k]->PeriodicSolve_0;
        let steps = periodic_steps(n, k as usize, false);
        let input = n.input_aabb@;
        let a1 = at.swapped();
        let a2 = a1.both(input);
        assert forall|c: int| #[trigger]
            among(n.boundary_nodes, c) implies self.boundary_node_runs(slopes, c, a2, k) by {
            assert(self.node_ok(c));
            assert(self.rim_fits(input, c));
            let own = Regions {
                input: self.run_box(c),
                output: self.run_box(c),
                cells: self.run_box(c).volume(),
            };
            assert(own.input.encloses(self.run_box(c)));
            self.lemma_node_runs(slopes, c, own);
        }
        assert(steps.len() >= 4);
        assert(steps[0] == SolveStep::<GRID_DIMENSION>::Swap);
        assert(steps[1] == SolveStep::ShrinkInput { aabb: n.input_aabb });
        assert(steps[2] == SolveStep::<GRID_DIMENSION>::Convolve {
            node: k as usize,
            convolution_id: n.convolution_id,
        });
        assert(steps[3] == SolveStep::<GRID_DIMENSION>::Boundary { nodes: n.boundary_nodes });
        match n.time_cut {
            Some(t) => {
                assert(steps.len() == 6);
                assert(steps[4] == SolveStep::<GRID_DIMENSION>::Swap);
                assert(steps[5] == SolveStep::<GRID_DIMENSION>::Continue { node: t });
                let a5 = a2.swapped();
                assert(self.node_ok(t as int));
                assert forall|d: int| 0 <= d < input.lo.len() implies input.lo[d] <= #[trigger] self.run_box(
                    t as int,
                ).lo[d] by {
                    assert(n.output_aabb@.lo[d] <= self.run_box(t as int).lo[d]);
                    assert(input.lo[d] <= n.output_aabb@.lo[d]);
                }
                assert forall|d: int| 0 <= d < input.hi.len() implies #[trigger] self.run_box(
                    t as int,
                ).hi[d] <= input.hi[d] by {
                    assert(self.run_box(t as int).hi[d] <= n.output_aabb@.hi[d]);
                    assert(n.output_aabb@.hi[d] <= input.hi[d]);
                }
                self.lemma_node_runs(slopes, t as int, a5);
                let after = self.after_steps(
                    slopes,
                    node_steps(self.nodes@[t as int], t),
                    0,
                    a5,
                    t as int,
                );
                let a6 = after->0;
                assert(self.after_steps(slopes, steps, 6, a6, k) == Some(a6));
                assert(self.after_steps(slopes, steps, 5, a5, k) == self.after_steps(
                    slopes,
                    steps,
                    6,
                    a6,
                    k,
                ));
                assert(self.after_steps(slopes, steps, 4, a2, k) == self.after_steps(
                    slopes,
                    steps,
                    5,
                    a5,
                    k,
                ));
            },
            None => {
                assert(steps.len() == 4);
                assert(self.after_steps(slopes, steps, 4, a2, k) == Some(a2));
            },
        }
        assert(self.after_steps(slopes, steps, 3, a2, k) == self.after_steps(slopes, steps, 4, a2, k));
        assert(self.after_steps(slopes, steps, 2, a2, k) == self.after_steps(slopes, steps, 3, a2, k));
        assert(self.after_steps(slopes, steps, 1, a1, k) == self.after_steps(slopes, steps, 2, a2, k));
        assert(self.after_steps(slopes, steps, 0, at, k) == self.after_steps(slopes, steps, 1, a1, k));
    }
}

} // verus!
