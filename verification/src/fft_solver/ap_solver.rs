use vstd::prelude::*;
use crate::error::SolveError;
use crate::fft_solver::ap_plan::{APPlan, NodeId, OpId, PeriodicSolveNode, PlanNode, RepeatNode};
use crate::fft_solver::ap_scratch::{APScratchBuilder, ScratchDescriptor, ScratchLayout};
use crate::util::aabb::AABB;
use crate::util::faces::Bounds;
use std::ops::Range;

verus! {

/// One thing that a run does to the pair of domains it holds, the input
/// domain and the output domain.
#[derive(Debug, PartialEq, Eq)]
pub enum SolveStep<const GRID_DIMENSION: usize> {
    /// Exchange the two domains.
    Swap,
    /// Cut the input domain down to `aabb`, fill it from the output domain,
    /// which covers it, and give the output domain the same region.
    ShrinkInput { aabb: AABB<GRID_DIMENSION> },
    /// Cut the output domain down to `aabb`, fill it from the input domain,
    /// which covers it, and give the input domain the same region.
    ShrinkOutput { aabb: AABB<GRID_DIMENSION> },
    /// Apply the kernel `convolution_id` from the input domain to the output
    /// domain, with the spectrum of `node` as scratch.
    Convolve { node: NodeId, convolution_id: OpId },
    /// Run the given nodes side by side.  Each reads the input domain, works
    /// in scratch memory of its own and writes its region of the output
    /// domain.
    Boundary { nodes: Range<NodeId> },
    /// Apply the stencil `steps` times, moving the faces that `sloped_sides`
    /// marks inward.
    Direct { sloped_sides: Bounds<GRID_DIMENSION>, steps: usize },
    /// As `Direct`, reading the field only inside `input_aabb`.
    AOBDirect { input_aabb: AABB<GRID_DIMENSION>, sloped_sides: Bounds<GRID_DIMENSION>, steps: usize },
    /// Go on with `node` on the same pair of domains.
    Continue { node: NodeId },
}

/// What the root does next.
#[derive(Debug, Copy, Clone, PartialEq, Eq, Structural)]
pub enum RootAction {
    /// Run the periodic solve `node` on the two domains, without cutting the
    /// result down to its output region.
    Run { node: NodeId },
    /// Exchange the two domains.
    Swap,
}

/// How far the root has come: `round` rounds of the repeated node are done,
/// and `ran` tells whether the node has run in the current round.
#[derive(Debug, Copy, Clone, PartialEq, Eq, Structural)]
pub struct RootProgress {
    pub round: usize,
    pub ran: bool,
}

/// Two scratch buffers for a region.
#[derive(Debug, PartialEq, Eq)]
pub struct ScratchDomains<const GRID_DIMENSION: usize> {
    pub aabb: AABB<GRID_DIMENSION>,
    pub input: Range<usize>,
    pub output: Range<usize>,
}

/// The steps of a periodic solve: exchange the domains and cut the input
/// down to the input region, convolve, fill the rim; then, if asked, cut the
/// result down to the output region; then hand over to the node after the
/// time cut, if there is one.
pub open spec fn periodic_steps<const GRID_DIMENSION: usize>(
    node: PeriodicSolveNode<GRID_DIMENSION>,
    node_id: NodeId,
    resize: bool,
) -> Seq<SolveStep<GRID_DIMENSION>> {
    seq![
        SolveStep::Swap,
        SolveStep::ShrinkInput { aabb: node.input_aabb },
        SolveStep::Convolve { node: node_id, convolution_id: node.convolution_id },
        SolveStep::Boundary { nodes: node.boundary_nodes },
    ] + (if resize {
        seq![SolveStep::Swap, SolveStep::ShrinkOutput { aabb: node.output_aabb }]
    } else {
        seq![]
    }) + (match node.time_cut {
        Some(next) => seq![SolveStep::Swap, SolveStep::Continue { node: next }],
        None => seq![],
    })
}

/// The steps of any node that runs on domains handed to it.  A repeat node
/// has none: it runs at the root only.
pub open spec fn node_steps<const GRID_DIMENSION: usize>(
    node: PlanNode<GRID_DIMENSION>,
    node_id: NodeId,
) -> Seq<SolveStep<GRID_DIMENSION>> {
    match node {
        PlanNode::PeriodicSolve(n) => periodic_steps(n, node_id, true),
        PlanNode::DirectSolve(n) => seq![
            SolveStep::Swap,
            SolveStep::ShrinkInput { aabb: n.input_aabb },
            SolveStep::Direct { sloped_sides: n.sloped_sides, steps: n.steps },
        ],
        PlanNode::AOBDirectSolve(n) => seq![
            SolveStep::Swap,
            SolveStep::ShrinkInput { aabb: n.init_input_aabb },
            SolveStep::AOBDirect {
                input_aabb: n.input_aabb,
                sloped_sides: n.sloped_sides,
                steps: n.steps,
            },
        ],
        PlanNode::Repeat(_) => seq![],
    }
}

/// What the root does at `at`: in each of `n` rounds the repeated node runs
/// and the domains are exchanged; after the last round the second node runs
/// if there is one, and else the domains are exchanged once more.  After that
/// nothing is left to do.
pub open spec fn root_action(root: RepeatNode, at: RootProgress) -> Option<RootAction> {
    if at.round < root.n {
        if at.ran {
            Some(RootAction::Swap)
        } else {
            Some(RootAction::Run { node: root.node })
        }
    } else if at.round == root.n && !at.ran {
        match root.next {
            Some(next) => Some(RootAction::Run { node: next }),
            None => Some(RootAction::Swap),
        }
    } else {
        None
    }
}

/// Where the root stands after what it does at `at`.
pub open spec fn root_advance(root: RepeatNode, at: RootProgress) -> RootProgress {
    if at.round < root.n {
        if at.ran {
            RootProgress { round: (at.round + 1) as usize, ran: false }
        } else {
            RootProgress { round: at.round, ran: true }
        }
    } else {
        RootProgress { round: root.n, ran: true }
    }
}

/// The schedule of a solve: the plan, the scratch memory of its nodes, and
/// the number of cells that one task works on at a time.
pub struct APSolver<const GRID_DIMENSION: usize> {
    pub plan: APPlan<GRID_DIMENSION>,
    pub node_scratch_descriptors: Vec<ScratchDescriptor>,
    pub real_scratch_size: usize,
    pub complex_scratch_size: usize,
    pub chunk_size: usize,
}

impl<const GRID_DIMENSION: usize> APSolver<GRID_DIMENSION> {
    /// The scratch memory as a layout.
    pub open spec fn layout(&self) -> ScratchLayout {
        ScratchLayout {
            descriptors: self.node_scratch_descriptors,
            real_size: self.real_scratch_size,
            complex_size: self.complex_scratch_size,
        }
    }

    /// The plan is sound and the scratch memory serves it.
    pub open spec fn wf(&self) -> bool {
        &&& self.plan.wf()
        &&& self.plan.scratch_fits()
        &&& self.layout().serves(&self.plan)
    }

    /// The repeat node at the root.
    pub open spec fn root(&self) -> RepeatNode {
        self.plan.nodes@[self.plan.root as int]->Repeat_0
    }

    /// Take a plan and lay out its scratch memory.  A plan that does not have
    /// the shape that a solve relies on is an `InvariantViolation`; a plan
    /// whose scratch memory cannot be addressed is `PlanningInfeasible`.
    pub fn new(plan: APPlan<GRID_DIMENSION>, chunk_size: usize) -> (r: Result<Self, SolveError>)
        ensures
            r is Ok <==> plan.wf() && plan.scratch_fits(),
            r is Ok ==> (r->Ok_0).wf() && (r->Ok_0).plan == plan && (r->Ok_0).chunk_size
                == chunk_size,
            r is Err ==> (r->Err_0 == SolveError::InvariantViolation <==> !plan.wf()),
            r is Err ==> (r->Err_0 == SolveError::PlanningInfeasible <==> plan.wf()),
    {
        if !plan.check_validity() {
            return Err(SolveError::InvariantViolation);
        }
        match APScratchBuilder::build(&plan) {
            None => Err(SolveError::PlanningInfeasible),
            Some(layout) => {
                let solver = APSolver {
                    plan,
                    node_scratch_descriptors: layout.descriptors,
                    real_scratch_size: layout.real_size,
                    complex_scratch_size: layout.complex_size,
                    chunk_size,
                };
                assert(solver.layout() == layout);
                Ok(solver)
            },
        }
    }

    /// What the root does first.
    pub fn apply(&self) -> (r: Option<RootAction>)
        requires
            self.wf(),
        ensures
            r == root_action(self.root(), RootProgress { round: 0, ran: false }),
    {
        self.solve_root(RootProgress { round: 0, ran: false })
    }

    /// What the root does at `at`, or `None` once it is done.  The caller
    /// does it and asks again at [`Self::root_next`].
    pub fn solve_root(&self, at: RootProgress) -> (r: Option<RootAction>)
        requires
            self.wf(),
        ensures
            r == root_action(self.root(), at),
            r is Some && r->0 is Run ==> r->0->node < self.plan.nodes@.len()
                && self.plan.nodes@[r->0->node as int] is PeriodicSolve,
    {
        assert(self.plan.node_ok(self.plan.root as int));
        let repeat_solve = self.plan.unwrap_repeat_node(self.plan.root);
        if at.round < repeat_solve.n {
            if at.ran {
                Some(RootAction::Swap)
            } else {
                Some(RootAction::Run { node: repeat_solve.node })
            }
        } else if at.round == repeat_solve.n && !at.ran {
            match repeat_solve.next {
                Some(next) => Some(RootAction::Run { node: next }),
                None => Some(RootAction::Swap),
            }
        } else {
            None
        }
    }

    /// Where the root stands once it has done what it does at `at`.
    pub fn root_next(&self, at: RootProgress) -> (r: RootProgress)
        requires
            self.wf(),
        ensures
            r == root_advance(self.root(), at),
    {
        let repeat_solve = self.plan.unwrap_repeat_node(self.plan.root);
        if at.round < repeat_solve.n {
            if at.ran {
                RootProgress { round: at.round + 1, ran: false }
            } else {
                RootProgress { round: at.round, ran: true }
            }
        } else {
            RootProgress { round: repeat_solve.n, ran: true }
        }
    }

    /// The two scratch buffers of `node_id`, as domains over `aabb`.  They
    /// are `DomainTooSmall` where a buffer has fewer cells than `aabb`.
    pub fn get_input_output(&self, node_id: NodeId, aabb: &AABB<GRID_DIMENSION>) -> (r: Result<
        ScratchDomains<GRID_DIMENSION>,
        SolveError,
    >)
        requires
            self.wf(),
            node_id < self.plan.nodes@.len(),
            node_id != self.plan.root,
            aabb@.storable(),
        ensures
            r is Ok <==> aabb@.volume() <= self.node_scratch_descriptors@[node_id as int].real_buffer_size,
            r is Err ==> r->Err_0 == SolveError::DomainTooSmall,
            r is Ok ==> ({
                let d = self.node_scratch_descriptors@[node_id as int];
                let found = r->Ok_0;
                &&& found.aabb == *aabb
                &&& found.input.start == d.input_offset
                &&& found.input.end == d.input_offset + d.real_buffer_size
                &&& found.output.start == d.output_offset
                &&& found.output.end == d.output_offset + d.real_buffer_size
                &&& found.input.end <= self.real_scratch_size
                &&& found.output.end <= self.real_scratch_size
            }),
    {
        let scratch_descriptor = &self.node_scratch_descriptors[node_id];
        assert(self.layout().descriptors@[node_id as int] == *scratch_descriptor);
        if scratch_descriptor.real_buffer_size < aabb.buffer_size() {
            return Err(SolveError::DomainTooSmall);
        }
        Ok(
            ScratchDomains {
                aabb: *aabb,
                input: scratch_descriptor.input_offset..scratch_descriptor.input_offset
                    + scratch_descriptor.real_buffer_size,
                output: scratch_descriptor.output_offset..scratch_descriptor.output_offset
                    + scratch_descriptor.real_buffer_size,
            },
        )
    }

    /// The cells of the complex arena that hold the spectrum of `node_id`.
    pub fn get_complex(&self, node_id: NodeId) -> (r: Range<usize>)
        requires
            self.wf(),
            node_id < self.plan.nodes@.len(),
            node_id != self.plan.root,
        ensures
            r.start == self.node_scratch_descriptors@[node_id as int].complex_offset,
            r.end == r.start + self.plan.nodes@[node_id as int].complex_cells(),
            r.end <= self.complex_scratch_size,
    {
        let scratch_descriptor = &self.node_scratch_descriptors[node_id];
        assert(self.layout().descriptors@[node_id as int] == *scratch_descriptor);
        scratch_descriptor.complex_offset..scratch_descriptor.complex_offset
            + scratch_descriptor.complex_buffer_size
    }

    /// The scratch domains in which `node_id` runs when it runs as a boundary
    /// node, whatever kind of solve it is.
    pub fn unknown_solve_allocate_io(&self, node_id: NodeId) -> (r: Result<
        ScratchDomains<GRID_DIMENSION>,
        SolveError,
    >)
        requires
            self.wf(),
            node_id < self.plan.nodes@.len(),
            node_id != self.plan.root,
        ensures
            r is Ok <==> self.plan.nodes@[node_id as int].real_cells()
                <= self.node_scratch_descriptors@[node_id as int].real_buffer_size,
            r is Err ==> r->Err_0 == SolveError::DomainTooSmall,
            r is Ok ==> ({
                let d = self.node_scratch_descriptors@[node_id as int];
                let found = r->Ok_0;
                &&& Some(found.aabb@) == self.plan.nodes@[node_id as int].buffer_box()
                &&& found.input.start == d.input_offset
                &&& found.input.end == d.input_offset + d.real_buffer_size
                &&& found.output.start == d.output_offset
                &&& found.output.end == d.output_offset + d.real_buffer_size
                &&& found.input.end <= self.real_scratch_size
                &&& found.output.end <= self.real_scratch_size
            }),
    {
        assert(self.plan.node_ok(node_id as int));
        match self.plan.get_node(node_id) {
            PlanNode::DirectSolve(_) => self.direct_solve_allocate_io(node_id),
            PlanNode::AOBDirectSolve(_) => self.aob_direct_solve_allocate_io(node_id),
            _ => self.periodic_solve_allocate_io(node_id),
        }
    }

    /// The steps of `node_id` on domains handed to it, whatever kind of
    /// solve it is.
    pub fn unknown_solve_preallocated_io(&self, node_id: NodeId) -> (r: Vec<SolveStep<GRID_DIMENSION>>)
        requires
            self.wf(),
            node_id < self.plan.nodes@.len(),
            node_id != self.plan.root,
        ensures
            r@ == node_steps(self.plan.nodes@[node_id as int], node_id),
    {
        assert(self.plan.node_ok(node_id as int));
        match self.plan.get_node(node_id) {
            PlanNode::DirectSolve(_) => self.direct_solve_preallocated_io(node_id),
            PlanNode::AOBDirectSolve(_) => self.aob_direct_solve_preallocated_io(node_id),
            _ => self.periodic_solve_preallocated_io(node_id, true),
        }
    }

    /// The steps of the periodic solve `node_id` on domains handed to it.
    pub fn periodic_solve_preallocated_io(&self, node_id: NodeId, resize: bool) -> (r: Vec<
        SolveStep<GRID_DIMENSION>,
    >)
        requires
            node_id < self.plan.nodes@.len(),
            self.plan.nodes@[node_id as int] is PeriodicSolve,
        ensures
            r@ == periodic_steps(self.plan.nodes@[node_id as int]->PeriodicSolve_0, node_id, resize),
    {
        let periodic_solve = self.plan.unwrap_periodic_node(node_id);
        let mut steps: Vec<SolveStep<GRID_DIMENSION>> = Vec::new();
        steps.push(SolveStep::Swap);
        steps.push(SolveStep::ShrinkInput { aabb: periodic_solve.input_aabb });
        steps.push(
            SolveStep::Convolve { node: node_id, convolution_id: periodic_solve.convolution_id },
        );
        steps.push(
            SolveStep::Boundary {
                nodes: periodic_solve.boundary_nodes.start..periodic_solve.boundary_nodes.end,
            },
        );
        if resize {
            steps.push(SolveStep::Swap);
            steps.push(SolveStep::ShrinkOutput { aabb: periodic_solve.output_aabb });
        }
        match periodic_solve.time_cut {
            Some(next_id) => {
                steps.push(SolveStep::Swap);
                steps.push(SolveStep::Continue { node: next_id });
            },
            None => {},
        }
        assert(steps@ =~= periodic_steps(*periodic_solve, node_id, resize));
        steps
    }

    /// The scratch domains in which the periodic solve `node_id` runs as a
    /// boundary node: two buffers over its input region.
    pub fn periodic_solve_allocate_io(&self, node_id: NodeId) -> (r: Result<
        ScratchDomains<GRID_DIMENSION>,
        SolveError,
    >)
        requires
            self.wf(),
            node_id < self.plan.nodes@.len(),
            node_id != self.plan.root,
            self.plan.nodes@[node_id as int] is PeriodicSolve,
        ensures
            r is Ok <==> self.plan.nodes@[node_id as int].real_cells()
                <= self.node_scratch_descriptors@[node_id as int].real_buffer_size,
            r is Err ==> r->Err_0 == SolveError::DomainTooSmall,
            r is Ok ==> ({
                let d = self.node_scratch_descriptors@[node_id as int];
                let found = r->Ok_0;
                &&& Some(found.aabb@) == self.plan.nodes@[node_id as int].buffer_box()
                &&& found.input.start == d.input_offset
                &&& found.input.end == d.input_offset + d.real_buffer_size
                &&& found.output.start == d.output_offset
                &&& found.output.end == d.output_offset + d.real_buffer_size
                &&& found.input.end <= self.real_scratch_size
                &&& found.output.end <= self.real_scratch_size
            }),
    {
        assert(self.plan.node_ok(node_id as int));
        let periodic_solve = self.plan.unwrap_periodic_node(node_id);
        self.get_input_output(node_id, &periodic_solve.input_aabb)
    }

    /// The scratch domains in which the direct solve `node_id` runs as a
    /// boundary node: two buffers over its input region.
    pub fn direct_solve_allocate_io(&self, node_id: NodeId) -> (r: Result<
        ScratchDomains<GRID_DIMENSION>,
        SolveError,
    >)
        requires
            self.wf(),
            node_id < self.plan.nodes@.len(),
            node_id != self.plan.root,
            self.plan.nodes@[node_id as int] is DirectSolve,
        ensures
            r is Ok <==> self.plan.nodes@[node_id as int].real_cells()
                <= self.node_scratch_descriptors@[node_id as int].real_buffer_size,
            r is Err ==> r->Err_0 == SolveError::DomainTooSmall,
            r is Ok ==> ({
                let d = self.node_scratch_descriptors@[node_id as int];
                let found = r->Ok_0;
                &&& Some(found.aabb@) == self.plan.nodes@[node_id as int].buffer_box()
                &&& found.input.start == d.input_offset
                &&& found.input.end == d.input_offset + d.real_buffer_size
                &&& found.output.start == d.output_offset
                &&& found.output.end == d.output_offset + d.real_buffer_size
                &&& found.input.end <= self.real_scratch_size
                &&& found.output.end <= self.real_scratch_size
            }),
    {
        assert(self.plan.node_ok(node_id as int));
        let direct_solve = self.plan.unwrap_direct_node(node_id);
        self.get_input_output(node_id, &direct_solve.input_aabb)
    }

    /// The steps of the direct solve `node_id` on domains handed to it.
    pub fn direct_solve_preallocated_io(&self, node_id: NodeId) -> (r: Vec<SolveStep<GRID_DIMENSION>>)
        requires
            node_id < self.plan.nodes@.len(),
            self.plan.nodes@[node_id as int] is DirectSolve,
        ensures
            r@ == node_steps(self.plan.nodes@[node_id as int], node_id),
    {
        let direct_solve = self.plan.unwrap_direct_node(node_id);
        let mut steps: Vec<SolveStep<GRID_DIMENSION>> = Vec::new();
        steps.push(SolveStep::Swap);
        steps.push(SolveStep::ShrinkInput { aabb: direct_solve.input_aabb });
        steps.push(
            SolveStep::Direct { sloped_sides: direct_solve.sloped_sides, steps: direct_solve.steps },
        );
        assert(steps@ =~= node_steps(self.plan.nodes@[node_id as int], node_id));
        steps
    }

    /// The scratch domains in which the direct solve next to the edge of the
    /// grid `node_id` runs as a boundary node: two buffers over the region it
    /// starts from.
    pub fn aob_direct_solve_allocate_io(&self, node_id: NodeId) -> (r: Result<
        ScratchDomains<GRID_DIMENSION>,
        SolveError,
    >)
        requires
            self.wf(),
            node_id < self.plan.nodes@.len(),
            node_id != self.plan.root,
            self.plan.nodes@[node_id as int] is AOBDirectSolve,
        ensures
            r is Ok <==> self.plan.nodes@[node_id as int].real_cells()
                <= self.node_scratch_descriptors@[node_id as int].real_buffer_size,
            r is Err ==> r->Err_0 == SolveError::DomainTooSmall,
            r is Ok ==> ({
                let d = self.node_scratch_descriptors@[node_id as int];
                let found = r->Ok_0;
                &&& Some(found.aabb@) == self.plan.nodes@[node_id as int].buffer_box()
                &&& found.input.start == d.input_offset
                &&& found.input.end == d.input_offset + d.real_buffer_size
                &&& found.output.start == d.output_offset
                &&& found.output.end == d.output_offset + d.real_buffer_size
                &&& found.input.end <= self.real_scratch_size
                &&& found.output.end <= self.real_scratch_size
            }),
    {
        assert(self.plan.node_ok(node_id as int));
        let aob_direct_solve = self.plan.unwrap_aob_direct_node(node_id);
        self.get_input_output(node_id, &aob_direct_solve.init_input_aabb)
    }

    /// The steps of the direct solve next to the edge of the grid `node_id`
    /// on domains handed to it.
    pub fn aob_direct_solve_preallocated_io(&self, node_id: NodeId) -> (r: Vec<
        SolveStep<GRID_DIMENSION>,
    >)
        requires
            node_id < self.plan.nodes@.len(),
            self.plan.nodes@[node_id as int] is AOBDirectSolve,
        ensures
            r@ == node_steps(self.plan.nodes@[node_id as int], node_id),
    {
        let aob_direct_solve = self.plan.unwrap_aob_direct_node(node_id);
        let mut steps: Vec<SolveStep<GRID_DIMENSION>> = Vec::new();
        steps.push(SolveStep::Swap);
        steps.push(SolveStep::ShrinkInput { aabb: aob_direct_solve.init_input_aabb });
        steps.push(
            SolveStep::AOBDirect {
                input_aabb: aob_direct_solve.input_aabb,
                sloped_sides: aob_direct_solve.sloped_sides,
                steps: aob_direct_solve.steps,
            },
        );
        assert(steps@ =~= node_steps(self.plan.nodes@[node_id as int], node_id));
        steps
    }
}

} // verus!
