use vstd::prelude::*;
use crate::util::aabb::AABB;
use crate::util::faces::{Bounds, Faces};
use std::ops::Range;

verus! {

/// Position of a node in the node list of a plan.
pub type NodeId = usize;

/// Position of a convolution kernel in the store that holds them.
pub type OpId = usize;

/// Advance a region by transform: valid on `output_aabb` after `steps` steps
/// from a field known on `input_aabb`.  The rim that the transform gets wrong
/// is filled by the boundary nodes; the node after a time cut continues from
/// what this node produced.
#[derive(Debug, PartialEq, Eq)]
pub struct PeriodicSolveNode<const GRID_DIMENSION: usize> {
    pub input_aabb: AABB<GRID_DIMENSION>,
    pub output_aabb: AABB<GRID_DIMENSION>,
    pub convolution_id: OpId,
    pub steps: usize,
    pub boundary_nodes: Range<NodeId>,
    pub time_cut: Option<NodeId>,
}

/// Advance a region by applying the stencil cell by cell.
#[derive(Debug, Copy, Clone, PartialEq, Eq)]
pub struct DirectSolveNode<const GRID_DIMENSION: usize> {
    pub input_aabb: AABB<GRID_DIMENSION>,
    pub output_aabb: AABB<GRID_DIMENSION>,
    pub sloped_sides: Bounds<GRID_DIMENSION>,
    pub steps: usize,
}

/// A direct solve next to the edge of the grid: it starts from
/// `init_input_aabb` and reads the field only inside `input_aabb`.
#[derive(Debug, Copy, Clone, PartialEq, Eq)]
pub struct AOBDirectSolveNode<const GRID_DIMENSION: usize> {
    pub init_input_aabb: AABB<GRID_DIMENSION>,
    pub input_aabb: AABB<GRID_DIMENSION>,
    pub output_aabb: AABB<GRID_DIMENSION>,
    pub sloped_sides: Bounds<GRID_DIMENSION>,
    pub steps: usize,
}

/// Run `node` `n` times, then `next` if there is one.
#[derive(Debug, Copy, Clone, PartialEq, Eq)]
pub struct RepeatNode {
    pub n: usize,
    pub node: NodeId,
    pub next: Option<NodeId>,
}

#[derive(Debug, PartialEq, Eq)]
pub enum PlanNode<const GRID_DIMENSION: usize> {
    PeriodicSolve(PeriodicSolveNode<GRID_DIMENSION>),
    DirectSolve(DirectSolveNode<GRID_DIMENSION>),
    AOBDirectSolve(AOBDirectSolveNode<GRID_DIMENSION>),
    Repeat(RepeatNode),
}

impl<const GRID_DIMENSION: usize> PlanNode<GRID_DIMENSION> {
    /// The region for which a solve of this node needs a pair of buffers.  A
    /// repeat node runs in the buffers of its caller.
    pub open spec fn buffer_box(self) -> Option<Faces> {
        match self {
            PlanNode::PeriodicSolve(n) => Some(n.input_aabb@),
            PlanNode::DirectSolve(n) => Some(n.input_aabb@),
            PlanNode::AOBDirectSolve(n) => Some(n.init_input_aabb@),
            PlanNode::Repeat(_) => None,
        }
    }

    /// Number of real cells in each buffer of this node.
    pub open spec fn real_cells(self) -> int {
        match self.buffer_box() {
            Some(b) => b.volume(),
            None => 0,
        }
    }

    /// Number of complex cells this node needs for a spectrum.
    pub open spec fn complex_cells(self) -> int {
        match self {
            PlanNode::PeriodicSolve(n) => n.input_aabb@.complex_volume(),
            _ => 0,
        }
    }
}

/// The nodes of a solve.  A node names the nodes below it by their position;
/// every node lies after the nodes below it, and the root is a repeat node.
#[derive(Debug, PartialEq, Eq)]
pub struct APPlan<const GRID_DIMENSION: usize> {
    pub nodes: Vec<PlanNode<GRID_DIMENSION>>,
    pub root: NodeId,
}

impl<const GRID_DIMENSION: usize> APPlan<GRID_DIMENSION> {
    /// Node `parent` names node `child` as one of the nodes below it.
    pub open spec fn is_child(&self, parent: int, child: int) -> bool {
        0 <= parent < self.nodes@.len() && match self.nodes@[parent] {
            PlanNode::PeriodicSolve(n) => (n.boundary_nodes.start <= child < n.boundary_nodes.end)
                || (n.time_cut is Some && n.time_cut->0 == child),
            PlanNode::Repeat(r) => r.node == child || (r.next is Some && r.next->0 == child),
            _ => false,
        }
    }

    /// Node `k` has buffers that can be allocated.
    pub open spec fn has_buffers(&self, k: int) -> bool {
        match self.nodes@[k].buffer_box() {
            Some(b) => b.storable(),
            None => false,
        }
    }

    /// Node `k` is sound by itself: the nodes below it lie before it, none of
    /// them is the root, a time cut does not lead to one of its own boundary
    /// nodes or to a node that needs larger buffers, and its buffers can be
    /// allocated.  A repeat node runs periodic solves and nothing else.
    pub open spec fn node_ok(&self, k: int) -> bool {
        match self.nodes@[k] {
            PlanNode::PeriodicSolve(n) => {
                &&& n.input_aabb@.storable()
                &&& n.boundary_nodes.start <= n.boundary_nodes.end <= k
                &&& !(n.boundary_nodes.start <= self.root < n.boundary_nodes.end)
                &&& match n.time_cut {
                    Some(t) => {
                        &&& t < k
                        &&& t != self.root
                        &&& !(n.boundary_nodes.start <= t < n.boundary_nodes.end)
                        &&& self.has_buffers(t as int)
                        &&& self.nodes@[t as int].real_cells() <= n.input_aabb@.volume()
                    },
                    None => true,
                }
            },
            PlanNode::DirectSolve(n) => n.input_aabb@.storable(),
            PlanNode::AOBDirectSolve(n) => n.init_input_aabb@.storable(),
            PlanNode::Repeat(r) => {
                &&& k == self.root
                &&& r.node < k
                &&& self.nodes@[r.node as int] is PeriodicSolve
                &&& match r.next {
                    Some(x) => x < k && x != r.node && self.nodes@[x as int] is PeriodicSolve,
                    None => true,
                }
            },
        }
    }

    /// No node lies below two nodes.
    pub open spec fn single_parent(&self) -> bool {
        forall|above: int, other: int, c: int|
            #![trigger self.is_child(above, c), self.is_child(other, c)]
            self.is_child(above, c) && self.is_child(other, c) ==> above == other
    }

    /// Node `child` lies below a node.
    pub open spec fn has_parent(&self, child: int) -> bool {
        exists|p: int| #[trigger] self.is_child(p, child)
    }

    /// Every node but the root lies below a node.
    pub open spec fn connected(&self) -> bool {
        forall|c: int|
            0 <= c < self.nodes@.len() && c != self.root ==> #[trigger] self.has_parent(c)
    }

    /// The plan has the shape that a solve relies on: the grid has an axis,
    /// the root is a repeat node, every node is sound by itself and every
    /// node but the root lies below exactly one node.
    pub open spec fn wf(&self) -> bool {
        &&& GRID_DIMENSION >= 1
        &&& self.root < self.nodes@.len()
        &&& self.nodes@[self.root as int] is Repeat
        &&& forall|k: int| 0 <= k < self.nodes@.len() ==> #[trigger] self.node_ok(k)
        &&& self.single_parent()
        &&& self.connected()
    }

    /// Number of nodes.
    pub fn len(&self) -> (r: usize)
        ensures
            r == self.nodes@.len(),
    {
        self.nodes.len()
    }

    pub fn get_node(&self, node: NodeId) -> (r: &PlanNode<GRID_DIMENSION>)
        requires
            node < self.nodes@.len(),
        ensures
            *r == self.nodes@[node as int],
    {
        &self.nodes[node]
    }

    /// The periodic solve at `node`.
    pub fn unwrap_periodic_node(&self, node: NodeId) -> (r: &PeriodicSolveNode<GRID_DIMENSION>)
        requires
            node < self.nodes@.len(),
            self.nodes@[node as int] is PeriodicSolve,
        ensures
            self.nodes@[node as int] == PlanNode::PeriodicSolve(*r),
    {
        match &self.nodes[node] {
            PlanNode::PeriodicSolve(n) => n,
            _ => vstd::pervasive::unreached(),
        }
    }

    /// The direct solve at `node`.
    pub fn unwrap_direct_node(&self, node: NodeId) -> (r: &DirectSolveNode<GRID_DIMENSION>)
        requires
            node < self.nodes@.len(),
            self.nodes@[node as int] is DirectSolve,
        ensures
            self.nodes@[node as int] == PlanNode::DirectSolve(*r),
    {
        match &self.nodes[node] {
            PlanNode::DirectSolve(n) => n,
            _ => vstd::pervasive::unreached(),
        }
    }

    /// The direct solve next to the edge of the grid at `node`.
    pub fn unwrap_aob_direct_node(&self, node: NodeId) -> (r: &AOBDirectSolveNode<GRID_DIMENSION>)
        requires
            node < self.nodes@.len(),
            self.nodes@[node as int] is AOBDirectSolve,
        ensures
            self.nodes@[node as int] == PlanNode::AOBDirectSolve(*r),
    {
        match &self.nodes[node] {
            PlanNode::AOBDirectSolve(n) => n,
            _ => vstd::pervasive::unreached(),
        }
    }

    /// The repeat node at `node`.
    pub fn unwrap_repeat_node(&self, node: NodeId) -> (r: &RepeatNode)
        requires
            node < self.nodes@.len(),
            self.nodes@[node as int] is Repeat,
        ensures
            self.nodes@[node as int] == PlanNode::<GRID_DIMENSION>::Repeat(*r),
    {
        match &self.nodes[node] {
            PlanNode::Repeat(n) => n,
            _ => vstd::pervasive::unreached(),
        }
    }
    /// Number of real cells in each buffer of node `node`, if it has buffers
    /// that can be allocated.
    pub fn node_cells(&self, node: NodeId) -> (r: Option<usize>)
        requires
            node < self.nodes@.len(),
        ensures
            r is Some <==> self.has_buffers(node as int),
            r is Some ==> r->0 == self.nodes@[node as int].real_cells(),
    {
        match &self.nodes[node] {
            PlanNode::PeriodicSolve(n) => {
                if n.input_aabb.is_storable() {
                    Some(n.input_aabb.buffer_size())
                } else {
                    None
                }
            },
            PlanNode::DirectSolve(n) => {
                if n.input_aabb.is_storable() {
                    Some(n.input_aabb.buffer_size())
                } else {
                    None
                }
            },
            PlanNode::AOBDirectSolve(n) => {
                if n.init_input_aabb.is_storable() {
                    Some(n.init_input_aabb.buffer_size())
                } else {
                    None
                }
            },
            PlanNode::Repeat(_) => None,
        }
    }

    /// Whether node `node` is sound by itself.
    pub fn check_node(&self, node: NodeId) -> (r: bool)
        requires
            node < self.nodes@.len(),
        ensures
            r == self.node_ok(node as int),
    {
        match &self.nodes[node] {
            PlanNode::PeriodicSolve(n) => {
                if !n.input_aabb.is_storable() {
                    return false;
                }
                if n.boundary_nodes.start > n.boundary_nodes.end || n.boundary_nodes.end > node {
                    return false;
                }
                if n.boundary_nodes.start <= self.root && self.root < n.boundary_nodes.end {
                    return false;
                }
                match n.time_cut {
                    None => true,
                    Some(t) => {
                        if t >= node || t == self.root {
                            return false;
                        }
                        if n.boundary_nodes.start <= t && t < n.boundary_nodes.end {
                            return false;
                        }
                        match self.node_cells(t) {
                            None => false,
                            Some(cells) => cells <= n.input_aabb.buffer_size(),
                        }
                    },
                }
            },
            PlanNode::DirectSolve(n) => n.input_aabb.is_storable(),
            PlanNode::AOBDirectSolve(n) => n.init_input_aabb.is_storable(),
            PlanNode::Repeat(r) => {
                if node != self.root || r.node >= node {
                    return false;
                }
                let first_is_periodic = match &self.nodes[r.node] {
                    PlanNode::PeriodicSolve(_) => true,
                    _ => false,
                };
                if !first_is_periodic {
                    return false;
                }
                match r.next {
                    None => true,
                    Some(x) => {
                        if x >= node || x == r.node {
                            return false;
                        }
                        match &self.nodes[x] {
                            PlanNode::PeriodicSolve(_) => true,
                            _ => false,
                        }
                    },
                }
            },
        }
    }
}

} // verus!
