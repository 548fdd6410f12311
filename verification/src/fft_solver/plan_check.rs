use vstd::prelude::*;
use crate::fft_solver::ap_plan::{APPlan, NodeId, PlanNode};

verus! {

/// What is known while the nodes are searched for a node with two parents,
/// when the nodes before `upto` are done and the nodes `done` below `upto`
/// itself are noted: `marks` holds the nodes that lie below a node, and
/// `parent` names that node for each of them.
pub(crate) open spec fn noted<const GRID_DIMENSION: usize>(
    plan: &APPlan<GRID_DIMENSION>,
    marks: Seq<bool>,
    parent: Seq<int>,
    upto: int,
    done: Set<int>,
) -> bool {
    &&& marks.len() == plan.nodes@.len()
    &&& parent.len() == plan.nodes@.len()
    &&& forall|q: int, x: int|
        0 <= q < upto && #[trigger] plan.is_child(q, x) ==> 0 <= x < marks.len() && marks[x]
            && parent[x] == q
    &&& forall|x: int|
        #[trigger] done.contains(x) ==> 0 <= x < marks.len() && marks[x] && parent[x] == upto
            && plan.is_child(upto, x)
    &&& forall|x: int|
        0 <= x < marks.len() && (#[trigger] marks[x]) ==> plan.is_child(parent[x], x) && ((0
            <= parent[x] < upto) || (parent[x] == upto && done.contains(x)))
}

impl<const GRID_DIMENSION: usize> APPlan<GRID_DIMENSION> {
    /// Note that `child` lies below `node`.  The answer is `false` where
    /// `child` is known to lie below a node already.
    fn claim(
        &self,
        marks: &mut Vec<bool>,
        Ghost(parent): Ghost<Seq<int>>,
        Ghost(done): Ghost<Set<int>>,
        node: NodeId,
        child: NodeId,
    ) -> (r: (bool, Ghost<Seq<int>>))
        requires
            noted(self, old(marks)@, parent, node as int, done),
            self.is_child(node as int, child as int),
            child < self.nodes@.len(),
            !done.contains(child as int),
        ensures
            r.0 ==> noted(self, final(marks)@, r.1@, node as int, done.insert(child as int)),
            !r.0 ==> !self.single_parent(),
    {
        if marks[child] {
            proof {
                let q = parent[child as int];
                assert(self.is_child(q, child as int));
                assert(q != node);
            }
            (false, Ghost(parent))
        } else {
            marks[child] = true;
            (true, Ghost(parent.update(child as int, node as int)))
        }
    }

    /// Whether every node but the root lies below exactly one node.
    pub fn check_tree(&self) -> (r: bool)
        requires
            self.root < self.nodes@.len(),
            forall|k: int| 0 <= k < self.nodes@.len() ==> #[trigger] self.node_ok(k),
        ensures
            r == (self.single_parent() && self.connected()),
    {
        let n = self.nodes.len();
        let mut marks: Vec<bool> = Vec::new();
        let mut i: usize = 0;
        while i < n
            invariant
                i <= n,
                marks@.len() == i,
                forall|c: int| 0 <= c < i ==> !marks@[c],
            decreases n - i,
        {
            marks.push(false);
            i += 1;
        }
        let ghost mut parent: Seq<int> = Seq::new(n as nat, |c: int| 0int);
        let mut p: usize = 0;
        while p < n
            invariant
                p <= n,
                n == self.nodes@.len(),
                self.root < self.nodes@.len(),
                forall|k: int| 0 <= k < self.nodes@.len() ==> #[trigger] self.node_ok(k),
                noted(self, marks@, parent, p as int, Set::empty()),
            decreases n - p,
        {
            assert(self.node_ok(p as int));
            let ghost mut done: Set<int> = Set::empty();
            match &self.nodes[p] {
                PlanNode::PeriodicSolve(node) => {
                    let start = node.boundary_nodes.start;
                    let end = node.boundary_nodes.end;
                    let mut c: usize = start;
                    while c < end
                        invariant
                            start <= c <= end <= p < n,
                            n == self.nodes@.len(),
                            self.nodes@[p as int] == PlanNode::PeriodicSolve(*node),
                            start == node.boundary_nodes.start,
                            end == node.boundary_nodes.end,
                            noted(self, marks@, parent, p as int, done),
                            forall|x: int| done.contains(x) <==> start <= x < c,
                        decreases end - c,
                    {
                        let (fresh, Ghost(now)) = self.claim(&mut marks, Ghost(parent), Ghost(done), p, c);
                        if !fresh {
                            return false;
                        }
                        proof {
                            parent = now;
                            done = done.insert(c as int);
                        }
                        c += 1;
                    }
                    match node.time_cut {
                        None => {},
                        Some(t) => {
                            let (fresh, Ghost(now)) = self.claim(&mut marks, Ghost(parent), Ghost(done), p, t);
                            if !fresh {
                                return false;
                            }
                            proof {
                                parent = now;
                                done = done.insert(t as int);
                            }
                        },
                    }
                },
                PlanNode::Repeat(node) => {
                    let (fresh, Ghost(now)) = self.claim(
                        &mut marks,
                        Ghost(parent),
                        Ghost(done),
                        p,
                        node.node,
                    );
                    if !fresh {
                        return false;
                    }
                    proof {
                        parent = now;
                        done = done.insert(node.node as int);
                    }
                    match node.next {
                        None => {},
                        Some(x) => {
                            let (fresh, Ghost(now)) = self.claim(&mut marks, Ghost(parent), Ghost(done), p, x);
                            if !fresh {
                                return false;
                            }
                            proof {
                                parent = now;
                                done = done.insert(x as int);
                            }
                        },
                    }
                },
                _ => {},
            }
            proof {
                assert forall|q: int, x: int|
                    0 <= q < p + 1 && #[trigger] self.is_child(q, x) implies 0 <= x < marks@.len()
                    && marks@[x] && parent[x] == q by {
                    if q == p {
                        assert(done.contains(x));
                    }
                }
                assert forall|x: int| 0 <= x < marks@.len() && (#[trigger] marks@[x]) implies 0
                    <= parent[x] < p + 1 by {
                    assert(self.is_child(parent[x], x));
                }
            }
            p += 1;
        }
        proof {
            assert forall|above: int, other: int, c: int|
                #![trigger self.is_child(above, c), self.is_child(other, c)]
                self.is_child(above, c) && self.is_child(other, c) implies above == other by {
                assert(parent[c] == above);
                assert(parent[c] == other);
            }
        }
        let mut c: usize = 0;
        while c < n
            invariant
                c <= n,
                n == self.nodes@.len(),
                noted(self, marks@, parent, n as int, Set::empty()),
                forall|x: int| 0 <= x < c && x != self.root ==> #[trigger] self.has_parent(x),
            decreases n - c,
        {
            if c != self.root {
                if !marks[c] {
                    proof {
                        assert forall|q: int| !#[trigger] self.is_child(q, c as int) by {
                            if self.is_child(q, c as int) {
                                assert(marks@[c as int]);
                            }
                        }
                        assert(!self.has_parent(c as int));
                    }
                    return false;
                }
                proof {
                    assert(marks@[c as int]);
                    assert(self.is_child(parent[c as int], c as int));
                }
            }
            c += 1;
        }
        true
    }

    /// Whether the plan has the shape that a solve relies on.
    pub fn check_validity(&self) -> (r: bool)
        ensures
            r == self.wf(),
    {
        if GRID_DIMENSION < 1 || self.root >= self.nodes.len() {
            return false;
        }
        let root_is_repeat = match &self.nodes[self.root] {
            PlanNode::Repeat(_) => true,
            _ => false,
        };
        if !root_is_repeat {
            return false;
        }
        let mut k: usize = 0;
        while k < self.nodes.len()
            invariant
                k <= self.nodes@.len(),
                forall|j: int| 0 <= j < k ==> #[trigger] self.node_ok(j),
            decreases self.nodes@.len() - k,
        {
            if !self.check_node(k) {
                return false;
            }
            k += 1;
        }
        self.check_tree()
    }
}

} // verus!
