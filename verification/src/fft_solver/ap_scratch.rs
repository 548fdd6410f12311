use vstd::prelude::*;
use vstd::math::max;
use crate::fft_solver::ap_plan::{APPlan, NodeId, PlanNode};

verus! {

/// Where the scratch memory of one node lies: two buffers of
/// `real_buffer_size` cells in the real arena, the first at `input_offset`
/// and the second at `output_offset`, and `complex_buffer_size` cells at
/// `complex_offset` in the complex arena.
#[derive(Debug, Copy, Clone, PartialEq, Eq)]
pub struct ScratchDescriptor {
    pub input_offset: usize,
    pub output_offset: usize,
    pub real_buffer_size: usize,
    pub complex_offset: usize,
    pub complex_buffer_size: usize,
}

impl ScratchDescriptor {
    /// The cells of the real arena that the two buffers cover.
    pub open spec fn real_cells(self) -> Set<int> {
        Set::new(
            |i: int|
                (self.input_offset <= i < self.input_offset + self.real_buffer_size) || (
                self.output_offset <= i < self.output_offset + self.real_buffer_size),
        )
    }

    /// The cells of the complex arena that the spectrum covers.
    pub open spec fn complex_cells(self) -> Set<int> {
        Set::new(|i: int| self.complex_offset <= i < self.complex_offset + self.complex_buffer_size)
    }

    /// A descriptor that covers nothing.
    pub fn empty() -> (r: Self)
        ensures
            r.input_offset == 0,
            r.output_offset == 0,
            r.real_buffer_size == 0,
            r.complex_offset == 0,
            r.complex_buffer_size == 0,
    {
        ScratchDescriptor {
            input_offset: 0,
            output_offset: 0,
            real_buffer_size: 0,
            complex_offset: 0,
            complex_buffer_size: 0,
        }
    }
}

/// What the nodes of a plan need: for each node the cells of one real
/// buffer and the cells of its spectrum, and for the nodes that are measured
/// the real and complex cells that the nodes below them need.
pub(crate) struct Needs {
    cells: Vec<usize>,
    spectrum: Vec<usize>,
    below_real: Vec<usize>,
    below_complex: Vec<usize>,
}

impl Needs {
    /// The needs are those of `plan`, and the nodes before `upto` are
    /// measured: what lies below them is known and can be addressed.
    pub(crate) closed spec fn known<const GRID_DIMENSION: usize>(
        &self,
        plan: &APPlan<GRID_DIMENSION>,
        upto: int,
    ) -> bool {
        &&& self.cells@.len() == plan.nodes@.len()
        &&& self.spectrum@.len() == plan.nodes@.len()
        &&& self.below_real@.len() == upto
        &&& self.below_complex@.len() == upto
        &&& forall|k: int|
            0 <= k < plan.nodes@.len() ==> (#[trigger] self.cells@[k]) == plan.nodes@[k].real_cells()
        &&& forall|k: int|
            0 <= k < plan.nodes@.len() ==> (#[trigger] self.spectrum@[k])
                == plan.nodes@[k].complex_cells()
        &&& forall|k: int| 0 <= k < upto ==> (#[trigger] self.below_real@[k]) == plan.below(k, false)
        &&& forall|k: int|
            0 <= k < upto ==> (#[trigger] self.below_complex@[k]) == plan.below(k, true)
        &&& forall|k: int, complex: bool|
            0 <= k < upto ==> #[trigger] plan.total(k, complex) <= usize::MAX
    }

    /// Measured nodes have needs that can be addressed.
    pub(crate) proof fn lemma_known_fits<const GRID_DIMENSION: usize>(
        &self,
        plan: &APPlan<GRID_DIMENSION>,
        upto: int,
        k: int,
    )
        requires
            self.known(plan, upto),
            0 <= k < upto,
        ensures
            plan.total(k, false) <= usize::MAX,
            plan.total(k, true) <= usize::MAX,
    {
    }

    /// What each node of `plan` takes for itself, with no node measured.
    pub(crate) fn own<const GRID_DIMENSION: usize>(plan: &APPlan<GRID_DIMENSION>) -> (r: Needs)
        requires
            plan.wf(),
        ensures
            r.known(plan, 0),
    {
        let mut cells: Vec<usize> = Vec::new();
        let mut spectrum: Vec<usize> = Vec::new();
        let mut k: usize = 0;
        while k < plan.nodes.len()
            invariant
                k <= plan.nodes@.len(),
                plan.wf(),
                cells@.len() == k,
                spectrum@.len() == k,
                forall|j: int| 0 <= j < k ==> (#[trigger] cells@[j]) == plan.nodes@[j].real_cells(),
                forall|j: int|
                    0 <= j < k ==> (#[trigger] spectrum@[j]) == plan.nodes@[j].complex_cells(),
            decreases plan.nodes@.len() - k,
        {
            proof {
                assert(plan.node_ok(k as int));
                plan.lemma_own_nonnegative(k as int, true);
            }
            let flat = match plan.node_cells(k) {
                Some(v) => v,
                None => 0,
            };
            let spectral = match &plan.nodes[k] {
                PlanNode::PeriodicSolve(n) => n.input_aabb.complex_buffer_size(),
                _ => 0,
            };
            cells.push(flat);
            spectrum.push(spectral);
            k += 1;
        }
        Needs { cells, spectrum, below_real: Vec::new(), below_complex: Vec::new() }
    }

    /// The cells of one real buffer of node `k`.
    pub(crate) fn cells_of<const GRID_DIMENSION: usize>(
        &self,
        plan: &APPlan<GRID_DIMENSION>,
        Ghost(upto): Ghost<int>,
        k: NodeId,
    ) -> (r: usize)
        requires
            self.known(plan, upto),
            k < plan.nodes@.len(),
        ensures
            r == plan.nodes@[k as int].real_cells(),
    {
        self.cells[k]
    }

    /// The cells of the spectrum of node `k`.
    pub(crate) fn spectrum_of<const GRID_DIMENSION: usize>(
        &self,
        plan: &APPlan<GRID_DIMENSION>,
        Ghost(upto): Ghost<int>,
        k: NodeId,
    ) -> (r: usize)
        requires
            self.known(plan, upto),
            k < plan.nodes@.len(),
        ensures
            r == plan.nodes@[k as int].complex_cells(),
    {
        self.spectrum[k]
    }

    /// The real cells that the nodes below the measured node `k` need.
    pub(crate) fn below_real_of<const GRID_DIMENSION: usize>(
        &self,
        plan: &APPlan<GRID_DIMENSION>,
        Ghost(upto): Ghost<int>,
        k: NodeId,
    ) -> (r: usize)
        requires
            self.known(plan, upto),
            k < upto,
        ensures
            r == plan.below(k as int, false),
    {
        self.below_real[k]
    }

    /// The complex cells that the nodes below the measured node `k` need.
    pub(crate) fn below_complex_of<const GRID_DIMENSION: usize>(
        &self,
        plan: &APPlan<GRID_DIMENSION>,
        Ghost(upto): Ghost<int>,
        k: NodeId,
    ) -> (r: usize)
        requires
            self.known(plan, upto),
            k < upto,
        ensures
            r == plan.below(k as int, true),
    {
        self.below_complex[k]
    }

    /// The real cells that the measured node `k` needs as a boundary node.
    fn total_real<const GRID_DIMENSION: usize>(
        &self,
        plan: &APPlan<GRID_DIMENSION>,
        Ghost(upto): Ghost<int>,
        k: NodeId,
    ) -> (r: usize)
        requires
            plan.wf(),
            self.known(plan, upto),
            k < upto <= plan.nodes@.len(),
        ensures
            r == plan.total(k as int, false),
    {
        proof {
            assert(plan.total(k as int, false) <= usize::MAX);
            plan.lemma_below_nonnegative(k as int, false);
            plan.lemma_own_nonnegative(k as int, false);
        }
        2 * self.cells[k] + self.below_real[k]
    }

    /// The complex cells that the measured node `k` needs.
    fn total_complex<const GRID_DIMENSION: usize>(
        &self,
        plan: &APPlan<GRID_DIMENSION>,
        Ghost(upto): Ghost<int>,
        k: NodeId,
    ) -> (r: usize)
        requires
            plan.wf(),
            self.known(plan, upto),
            k < upto <= plan.nodes@.len(),
        ensures
            r == plan.total(k as int, true),
    {
        proof {
            assert(plan.total(k as int, true) <= usize::MAX);
            plan.lemma_below_nonnegative(k as int, true);
            plan.lemma_own_nonnegative(k as int, true);
        }
        self.spectrum[k] + self.below_complex[k]
    }

    /// Note what the nodes below the next node need, unless that node needs
    /// more than can be addressed.
    fn note<const GRID_DIMENSION: usize>(
        &mut self,
        plan: &APPlan<GRID_DIMENSION>,
        need_real: usize,
        need_complex: usize,
    ) -> (r: bool)
        requires
            plan.wf(),
            old(self).below_real@.len() < plan.nodes@.len(),
            old(self).known(plan, old(self).below_real@.len() as int),
            need_real == plan.below(old(self).below_real@.len() as int, false),
            need_complex == plan.below(old(self).below_real@.len() as int, true),
        ensures
            r ==> final(self).known(plan, old(self).below_real@.len() as int + 1),
            !r ==> !plan.scratch_fits(),
    {
        let k = self.below_real.len();
        proof {
            assert(self.cells@[k as int] == plan.nodes@[k as int].real_cells());
            assert(self.spectrum@[k as int] == plan.nodes@[k as int].complex_cells());
            plan.lemma_own_nonnegative(k as int, false);
            plan.lemma_below_nonnegative(k as int, false);
        }
        let twice = match self.cells[k].checked_add(self.cells[k]) {
            Some(v) => v,
            None => {
                assert(plan.total(k as int, false) > usize::MAX);
                return false;
            },
        };
        if twice.checked_add(need_real).is_none() {
            assert(plan.total(k as int, false) > usize::MAX);
            return false;
        }
        if self.spectrum[k].checked_add(need_complex).is_none() {
            assert(plan.total(k as int, true) > usize::MAX);
            return false;
        }
        self.below_real.push(need_real);
        self.below_complex.push(need_complex);
        proof {
            assert forall|j: int, complex: bool| 0 <= j < k + 1 implies #[trigger] plan.total(
                j,
                complex,
            ) <= usize::MAX by {
                if j == k {
                    if complex {
                        assert(plan.total(k as int, true) <= usize::MAX);
                    } else {
                        assert(plan.total(k as int, false) <= usize::MAX);
                    }
                }
            }
        }
        true
    }
}

/// What the nodes below each node of `plan` need, in real cells and in
/// complex cells, unless the need of some node cannot be addressed.
pub(crate) fn measure<const GRID_DIMENSION: usize>(plan: &APPlan<GRID_DIMENSION>) -> (r: Option<
    Needs,
>)
    requires
        plan.wf(),
    ensures
        r is Some <==> plan.scratch_fits(),
        r is Some ==> (r->0).known(plan, plan.nodes@.len() as int),
{
    let n = plan.nodes.len();
    let mut needs = Needs::own(plan);
    let mut k: usize = 0;
    while k < n
        invariant
            k <= n,
            n == plan.nodes@.len(),
            plan.wf(),
            needs.known(plan, k as int),
            needs.below_real@.len() == k,
        decreases n - k,
    {
        proof {
            assert(plan.node_ok(k as int));
            plan.lemma_below_nonnegative(k as int, false);
            plan.lemma_below_nonnegative(k as int, true);
        }
        let mut need_real: usize = 0;
        let mut need_complex: usize = 0;
        match &plan.nodes[k] {
            PlanNode::PeriodicSolve(node) => {
                let start = node.boundary_nodes.start;
                let end = node.boundary_nodes.end;
                proof {
                    plan.lemma_below_periodic(k as int, false);
                    plan.lemma_below_periodic(k as int, true);
                }
                let mut c: usize = start;
                while c < end
                    invariant
                        start <= c <= end <= k < n,
                        n == plan.nodes@.len(),
                        plan.wf(),
                        needs.known(plan, k as int),
                        need_real == plan.spread(k as int, start as int, c as int, false),
                        need_complex == plan.spread(k as int, start as int, c as int, true),
                        plan.below(k as int, false) >= plan.spread(
                            k as int,
                            start as int,
                            end as int,
                            false,
                        ),
                        plan.below(k as int, true) >= plan.spread(
                            k as int,
                            start as int,
                            end as int,
                            true,
                        ),
                    decreases end - c,
                {
                    proof {
                        plan.lemma_spread_step(k as int, start as int, c as int, false);
                        plan.lemma_spread_step(k as int, start as int, c as int, true);
                        plan.lemma_spread_monotone(k as int, start as int, c + 1, end as int, false);
                        plan.lemma_spread_monotone(k as int, start as int, c + 1, end as int, true);
                        plan.lemma_own_nonnegative(k as int, false);
                        plan.lemma_own_nonnegative(k as int, true);
                    }
                    let child_real = needs.total_real(plan, Ghost(k as int), c);
                    let child_complex = needs.total_complex(plan, Ghost(k as int), c);
                    match need_real.checked_add(child_real) {
                        Some(v) => {
                            need_real = v;
                        },
                        None => {
                            assert(plan.total(k as int, false) > usize::MAX);
                            return None;
                        },
                    }
                    match need_complex.checked_add(child_complex) {
                        Some(v) => {
                            need_complex = v;
                        },
                        None => {
                            assert(plan.total(k as int, true) > usize::MAX);
                            return None;
                        },
                    }
                    c += 1;
                }
                match node.time_cut {
                    None => {},
                    Some(t) => {
                        let after_real = needs.below_real_of(plan, Ghost(k as int), t);
                        let after_complex = needs.total_complex(plan, Ghost(k as int), t);
                        if after_real > need_real {
                            need_real = after_real;
                        }
                        if after_complex > need_complex {
                            need_complex = after_complex;
                        }
                    },
                }
            },
            PlanNode::Repeat(node) => {
                need_real = needs.below_real_of(plan, Ghost(k as int), node.node);
                need_complex = needs.total_complex(plan, Ghost(k as int), node.node);
                match node.next {
                    None => {},
                    Some(t) => {
                        let after_real = needs.below_real_of(plan, Ghost(k as int), t);
                        let after_complex = needs.total_complex(plan, Ghost(k as int), t);
                        if after_real > need_real {
                            need_real = after_real;
                        }
                        if after_complex > need_complex {
                            need_complex = after_complex;
                        }
                    },
                }
            },
            _ => {},
        }
        if !needs.note(plan, need_real, need_complex) {
            return None;
        }
        k += 1;
    }
    proof {
        assert forall|j: int, complex: bool| 0 <= j < plan.nodes@.len() implies #[trigger] plan.total(
            j,
            complex,
        ) <= usize::MAX by {
            needs.lemma_known_fits(plan, n as int, j);
        }
    }
    Some(needs)
}

/// Where the nodes were put so far: their descriptors, where the real cells
/// for the nodes below each node start, and where its spectrum starts.
pub(crate) struct Places {
    pub descriptors: Seq<ScratchDescriptor>,
    pub real_start: Seq<usize>,
    pub complex_start: Seq<usize>,
}

impl Places {
    /// The places after node `x` got the descriptor `d` and the start
    /// `real_start`.
    pub(crate) open spec fn put(self, x: int, d: ScratchDescriptor, real_start: usize) -> Places {
        Places {
            descriptors: self.descriptors.update(x, d),
            real_start: self.real_start.update(x, real_start),
            complex_start: self.complex_start.update(x, d.complex_offset),
        }
    }
}

/// Node `x` has its place: its buffers end where the space for the nodes
/// below it starts, and that space and its spectrum end inside the arenas.
pub(crate) open spec fn bounded<const GRID_DIMENSION: usize>(
    plan: &APPlan<GRID_DIMENSION>,
    places: Places,
    x: int,
) -> bool {
    let d = places.descriptors[x];
    &&& places.real_start[x] + plan.below(x, false) <= plan.below(plan.root as int, false)
    &&& places.complex_start[x] + plan.total(x, true) <= plan.below(plan.root as int, true)
    &&& d.input_offset + d.real_buffer_size <= places.real_start[x]
    &&& d.output_offset + d.real_buffer_size <= places.real_start[x]
    &&& d.complex_buffer_size == plan.nodes@[x].complex_cells()
    &&& places.complex_start[x] == d.complex_offset
}

/// Node `x`, which lies below node `q`, has the place that `q` gives it.  A
/// boundary node gets two buffers of its own after the nodes before it, and
/// its spectrum after theirs.  The node after a time cut gets the buffers of
/// `q`, swapped, and its spectrum after that of `q`.  A node below the root
/// has no buffers in the arena, and its spectrum lies at the start.
pub(crate) open spec fn placed<const GRID_DIMENSION: usize>(
    plan: &APPlan<GRID_DIMENSION>,
    places: Places,
    q: int,
    x: int,
) -> bool {
    let d = places.descriptors[x];
    let up = places.descriptors[q];
    &&& bounded(plan, places, x)
    &&& match plan.nodes@[q] {
        PlanNode::PeriodicSolve(n) => if n.boundary_nodes.start <= x < n.boundary_nodes.end {
            &&& d.input_offset == places.real_start[q] + plan.spread(
                q,
                n.boundary_nodes.start as int,
                x,
                false,
            )
            &&& d.output_offset == d.input_offset + plan.nodes@[x].real_cells()
            &&& d.real_buffer_size == plan.nodes@[x].real_cells()
            &&& d.complex_offset == places.complex_start[q] + plan.nodes@[q].complex_cells()
                + plan.spread(q, n.boundary_nodes.start as int, x, true)
            &&& places.real_start[x] == d.input_offset + 2 * plan.nodes@[x].real_cells()
        } else {
            &&& d.input_offset == up.output_offset
            &&& d.output_offset == up.input_offset
            &&& d.real_buffer_size == up.real_buffer_size
            &&& d.complex_offset == places.complex_start[q] + plan.nodes@[q].complex_cells()
            &&& places.real_start[x] == places.real_start[q]
        },
        PlanNode::Repeat(_) => {
            &&& d.input_offset == 0
            &&& d.output_offset == 0
            &&& d.real_buffer_size == 0
            &&& d.complex_offset == 0
            &&& places.real_start[x] == 0
        },
        _ => true,
    }
}

/// A place stays what it is while other nodes are placed.
pub(crate) proof fn lemma_placed_kept<const GRID_DIMENSION: usize>(
    plan: &APPlan<GRID_DIMENSION>,
    before: Places,
    after: Places,
    q: int,
    x: int,
)
    requires
        placed(plan, before, q, x),
        after.descriptors[x] == before.descriptors[x],
        after.descriptors[q] == before.descriptors[q],
        after.real_start[x] == before.real_start[x],
        after.real_start[q] == before.real_start[q],
        after.complex_start[x] == before.complex_start[x],
        after.complex_start[q] == before.complex_start[q],
    ensures
        placed(plan, after, q, x),
{
}

/// The three lists that placing fills: where the memory of each node lies,
/// where the real cells for the nodes below it start, and where its spectrum
/// starts.
pub(crate) struct Placement {
    pub(crate) descriptors: Vec<ScratchDescriptor>,
    pub(crate) real_start: Vec<usize>,
    pub(crate) complex_start: Vec<usize>,
}

impl Placement {
    /// One entry per node, each covering nothing.
    fn blank(n: usize) -> (r: Self)
        ensures
            r.descriptors@.len() == n,
            r.real_start@.len() == n,
            r.complex_start@.len() == n,
            forall|k: int| 0 <= k < n ==> (#[trigger] r.descriptors@[k]) == (ScratchDescriptor {
                input_offset: 0,
                output_offset: 0,
                real_buffer_size: 0,
                complex_offset: 0,
                complex_buffer_size: 0,
            }),
            forall|k: int| 0 <= k < n ==> (#[trigger] r.real_start@[k]) == 0,
            forall|k: int| 0 <= k < n ==> (#[trigger] r.complex_start@[k]) == 0,
    {
        let mut r = Placement {
            descriptors: Vec::new(),
            real_start: Vec::new(),
            complex_start: Vec::new(),
        };
        let mut k: usize = 0;
        while k < n
            invariant
                k <= n,
                r.descriptors@.len() == k,
                r.real_start@.len() == k,
                r.complex_start@.len() == k,
                forall|j: int|
                    0 <= j < k ==> (#[trigger] r.descriptors@[j]) == (ScratchDescriptor {
                        input_offset: 0,
                        output_offset: 0,
                        real_buffer_size: 0,
                        complex_offset: 0,
                        complex_buffer_size: 0,
                    }),
                forall|j: int| 0 <= j < k ==> (#[trigger] r.real_start@[j]) == 0,
                forall|j: int| 0 <= j < k ==> (#[trigger] r.complex_start@[j]) == 0,
            decreases n - k,
        {
            r.descriptors.push(ScratchDescriptor::empty());
            r.real_start.push(0);
            r.complex_start.push(0);
            k += 1;
        }
        r
    }

    /// Give node `x` its place.
    fn put(&mut self, x: NodeId, d: ScratchDescriptor, real_start: usize)
        requires
            x < old(self).descriptors@.len(),
            old(self).descriptors@.len() == old(self).real_start@.len(),
            old(self).descriptors@.len() == old(self).complex_start@.len(),
        ensures
            final(self)@ == old(self)@.put(x as int, d, real_start),
    {
        self.descriptors[x] = d;
        self.real_start[x] = real_start;
        self.complex_start[x] = d.complex_offset;
    }
}

impl View for Placement {
    type V = Places;

    closed spec fn view(&self) -> Places {
        Places {
            descriptors: self.descriptors@,
            real_start: self.real_start@,
            complex_start: self.complex_start@,
        }
    }
}

/// Placing a node below node `i` leaves the places that later nodes gave.
pub(crate) proof fn lemma_put_keeps<const GRID_DIMENSION: usize>(
    plan: &APPlan<GRID_DIMENSION>,
    before: Places,
    after: Places,
    i: int,
    c: int,
)
    requires
        plan.wf(),
        plan.is_child(i, c),
        0 <= c < before.descriptors.len(),
        before.descriptors.len() == before.real_start.len(),
        before.descriptors.len() == before.complex_start.len(),
        before.descriptors.len() == plan.nodes@.len(),
        after == before.put(c, after.descriptors[c], after.real_start[c]),
        forall|q: int, x: int| i < q && #[trigger] plan.is_child(q, x) ==> placed(plan, before, q, x),
    ensures
        forall|q: int, x: int| i < q && #[trigger] plan.is_child(q, x) ==> placed(plan, after, q, x),
        bounded(plan, before, i) ==> bounded(plan, after, i),
        bounded(plan, before, plan.root as int) ==> bounded(plan, after, plan.root as int),
{
    assert(plan.node_ok(i));
    assert(c < i);
    assert(c != plan.root);
    assert forall|q: int, x: int| i < q && #[trigger] plan.is_child(q, x) implies placed(
        plan,
        after,
        q,
        x,
    ) by {
        assert(plan.node_ok(q));
        if x == c {
            assert(plan.is_child(i, c) && plan.is_child(q, c));
        }
        lemma_placed_kept(plan, before, after, q, x);
    }
}

/// Give every node its place, from the root down.
pub(crate) fn place<const GRID_DIMENSION: usize>(plan: &APPlan<GRID_DIMENSION>, needs: &Needs) -> (r:
    Placement)
    requires
        plan.wf(),
        plan.scratch_fits(),
        needs.known(plan, plan.nodes@.len() as int),
    ensures
        r.descriptors@.len() == plan.nodes@.len(),
        r.real_start@.len() == plan.nodes@.len(),
        r.complex_start@.len() == plan.nodes@.len(),
        forall|q: int, x: int| #[trigger] plan.is_child(q, x) ==> placed(plan, r@, q, x),
{
    let n = plan.nodes.len();
    let mut out = Placement::blank(n);
    proof {
        let root = plan.root as int;
        assert(plan.node_ok(root));
        assert(plan.total(root, true) <= usize::MAX);
        assert(plan.total(root, false) <= usize::MAX);
        plan.lemma_below_nonnegative(root, false);
        plan.lemma_below_nonnegative(root, true);
        assert(out@.descriptors[root].real_buffer_size == 0);
        assert(out@.real_start[root] == 0);
        assert(out@.complex_start[root] == 0);
    }
    let mut i: usize = n;
    while i > 0
        invariant
            i <= n,
            n == plan.nodes@.len(),
            plan.wf(),
            plan.scratch_fits(),
            needs.known(plan, n as int),
            out.descriptors@.len() == n,
            out.real_start@.len() == n,
            out.complex_start@.len() == n,
            bounded(plan, out@, plan.root as int),
            forall|q: int, x: int|
                i <= q && #[trigger] plan.is_child(q, x) ==> placed(plan, out@, q, x),
        decreases i,
    {
        i -= 1;
        proof {
            let root = plan.root as int;
            assert(plan.node_ok(i as int));
            assert(plan.total(root, true) <= usize::MAX);
            assert(plan.total(root, false) <= usize::MAX);
            assert(plan.total(i as int, true) <= usize::MAX);
            plan.lemma_below_nonnegative(i as int, false);
            plan.lemma_below_nonnegative(i as int, true);
            plan.lemma_own_nonnegative(i as int, false);
            plan.lemma_own_nonnegative(i as int, true);
            plan.lemma_own_nonnegative(root, true);
            if i != plan.root {
                assert(plan.has_parent(i as int));
                let p = choose|p: int| #[trigger] plan.is_child(p, i as int);
                assert(plan.node_ok(p));
                assert(placed(plan, out@, p, i as int));
            }
            assert(bounded(plan, out@, i as int));
        }
        let here = out.descriptors[i];
        let real_base = out.real_start[i];
        let complex_base = out.complex_start[i];
        match &plan.nodes[i] {
            PlanNode::PeriodicSolve(node) => {
                let start = node.boundary_nodes.start;
                let end = node.boundary_nodes.end;
                proof {
                    plan.lemma_below_periodic(i as int, false);
                    plan.lemma_below_periodic(i as int, true);
                    plan.lemma_spread_monotone(
                        i as int,
                        start as int,
                        start as int,
                        end as int,
                        false,
                    );
                    plan.lemma_spread_monotone(i as int, start as int, start as int, end as int, true);
                }
                let mut next_real: usize = real_base;
                let own_spectrum = needs.spectrum_of(plan, Ghost(n as int), i);
                let mut next_complex: usize = complex_base + own_spectrum;
                let mut c: usize = start;
                while c < end
                    invariant
                        start <= c <= end <= i < n,
                        n == plan.nodes@.len(),
                        plan.wf(),
                        plan.scratch_fits(),
                        plan.nodes@[i as int] == PlanNode::PeriodicSolve(*node),
                        start == node.boundary_nodes.start,
                        end == node.boundary_nodes.end,
                        needs.known(plan, n as int),
                        out.descriptors@.len() == n,
                        out.real_start@.len() == n,
                        out.complex_start@.len() == n,
                        out.descriptors@[i as int] == here,
                        out.real_start@[i as int] == real_base,
                        out.complex_start@[i as int] == complex_base,
                        bounded(plan, out@, plan.root as int),
                        bounded(plan, out@, i as int),
                        plan.below(plan.root as int, false) <= usize::MAX,
                        plan.below(plan.root as int, true) <= usize::MAX,
                        next_real == real_base + plan.spread(i as int, start as int, c as int, false),
                        next_complex == complex_base + plan.nodes@[i as int].complex_cells()
                            + plan.spread(i as int, start as int, c as int, true),
                        forall|q: int, x: int|
                            i < q && #[trigger] plan.is_child(q, x) ==> placed(plan, out@, q, x),
                        forall|x: int|
                            start <= x < c ==> #[trigger] placed(plan, out@, i as int, x),
                    decreases end - c,
                {
                    proof {
                        plan.lemma_spread_step(i as int, start as int, c as int, false);
                        plan.lemma_spread_step(i as int, start as int, c as int, true);
                        plan.lemma_spread_monotone(i as int, start as int, c + 1, end as int, false);
                        plan.lemma_spread_monotone(i as int, start as int, c + 1, end as int, true);
                        plan.lemma_below_periodic(i as int, false);
                        plan.lemma_below_periodic(i as int, true);
                        plan.lemma_below_nonnegative(c as int, false);
                        plan.lemma_below_nonnegative(c as int, true);
                        plan.lemma_own_nonnegative(c as int, false);
                        plan.lemma_own_nonnegative(c as int, true);
                        assert(plan.is_child(i as int, c as int));
                    }
                    let size = needs.cells_of(plan, Ghost(n as int), c);
                    let spectral = needs.spectrum_of(plan, Ghost(n as int), c);
                    let below_real = needs.below_real_of(plan, Ghost(n as int), c);
                    let below_complex = needs.below_complex_of(plan, Ghost(n as int), c);
                    let d = ScratchDescriptor {
                        input_offset: next_real,
                        output_offset: next_real + size,
                        real_buffer_size: size,
                        complex_offset: next_complex,
                        complex_buffer_size: spectral,
                    };
                    let child_start = next_real + size + size;
                    let ghost before = out@;
                    out.put(c, d, child_start);
                    proof {
                        lemma_put_keeps(plan, before, out@, i as int, c as int);
                        assert forall|x: int| start <= x < c + 1 implies #[trigger] placed(
                            plan,
                            out@,
                            i as int,
                            x,
                        ) by {
                            if x < c {
                                lemma_placed_kept(plan, before, out@, i as int, x);
                            }
                        }
                    }
                    next_real = child_start + below_real;
                    next_complex = next_complex + spectral + below_complex;
                    c += 1;
                }
                match node.time_cut {
                    None => {},
                    Some(t) => {
                        proof {
                            assert(plan.is_child(i as int, t as int));
                            plan.lemma_below_nonnegative(t as int, false);
                            plan.lemma_below_nonnegative(t as int, true);
                            plan.lemma_own_nonnegative(t as int, true);
                        }
                        let d = ScratchDescriptor {
                            input_offset: here.output_offset,
                            output_offset: here.input_offset,
                            real_buffer_size: here.real_buffer_size,
                            complex_offset: complex_base + own_spectrum,
                            complex_buffer_size: needs.spectrum_of(plan, Ghost(n as int), t),
                        };
                        let ghost before = out@;
                        out.put(t, d, real_base);
                        proof {
                            lemma_put_keeps(plan, before, out@, i as int, t as int);
                            assert forall|x: int| start <= x < end implies #[trigger] placed(
                                plan,
                                out@,
                                i as int,
                                x,
                            ) by {
                                lemma_placed_kept(plan, before, out@, i as int, x);
                            }
                            assert(placed(plan, out@, i as int, t as int));
                        }
                    },
                }
                proof {
                    assert forall|q: int, x: int|
                        i <= q && #[trigger] plan.is_child(q, x) implies placed(
                        plan,
                        out@,
                        q,
                        x,
                    ) by {
                        if q == i {
                            if start <= x < end {
                                assert(placed(plan, out@, i as int, x));
                            }
                        }
                    }
                }
            },
            PlanNode::Repeat(node) => {
                let first = node.node;
                proof {
                    assert(plan.is_child(i as int, first as int));
                    plan.lemma_below_nonnegative(first as int, false);
                    plan.lemma_below_nonnegative(first as int, true);
                    plan.lemma_own_nonnegative(first as int, true);
                }
                let d = ScratchDescriptor {
                    input_offset: 0,
                    output_offset: 0,
                    real_buffer_size: 0,
                    complex_offset: 0,
                    complex_buffer_size: needs.spectrum_of(plan, Ghost(n as int), first),
                };
                let ghost before = out@;
                out.put(first, d, 0);
                proof {
                    lemma_put_keeps(plan, before, out@, i as int, first as int);
                    assert(placed(plan, out@, i as int, first as int));
                }
                match node.next {
                    None => {},
                    Some(second) => {
                        proof {
                            assert(plan.is_child(i as int, second as int));
                            plan.lemma_below_nonnegative(second as int, false);
                            plan.lemma_below_nonnegative(second as int, true);
                            plan.lemma_own_nonnegative(second as int, true);
                        }
                        let d = ScratchDescriptor {
                            input_offset: 0,
                            output_offset: 0,
                            real_buffer_size: 0,
                            complex_offset: 0,
                            complex_buffer_size: needs.spectrum_of(plan, Ghost(n as int), second),
                        };
                        let ghost before = out@;
                        out.put(second, d, 0);
                        proof {
                            lemma_put_keeps(plan, before, out@, i as int, second as int);
                            lemma_placed_kept(plan, before, out@, i as int, first as int);
                            assert(placed(plan, out@, i as int, second as int));
                        }
                    },
                }
            },
            _ => {},
        }
    }
    out
}

/// The scratch memory of a plan: where the memory of each node lies, and how
/// many cells the real arena and the complex arena hold.
#[derive(Debug, PartialEq, Eq)]
pub struct ScratchLayout {
    pub descriptors: Vec<ScratchDescriptor>,
    pub real_size: usize,
    pub complex_size: usize,
}

impl ScratchLayout {
    /// Every boundary node has two buffers of its own, each as large as its
    /// region, one right after the other and inside the real arena.
    pub open spec fn boundary_nodes_have_buffers<const GRID_DIMENSION: usize>(
        &self,
        plan: &APPlan<GRID_DIMENSION>,
    ) -> bool {
        forall|p: int, c: int|
            #![trigger plan.is_child(p, c), self.descriptors@[c]]
            plan.is_child(p, c) && plan.nodes@[p] is PeriodicSolve && !(
            plan.nodes@[p]->PeriodicSolve_0.time_cut == Some(c as usize)) ==> {
                let d = self.descriptors@[c];
                &&& d.real_buffer_size == plan.nodes@[c].real_cells()
                &&& d.output_offset == d.input_offset + d.real_buffer_size
                &&& d.output_offset + d.real_buffer_size <= self.real_size
            }
    }

    /// Every node but the root has room for its spectrum inside the complex
    /// arena, and its buffers lie inside the real arena.
    pub open spec fn nodes_have_spectra<const GRID_DIMENSION: usize>(
        &self,
        plan: &APPlan<GRID_DIMENSION>,
    ) -> bool {
        forall|x: int|
            0 <= x < plan.nodes@.len() && x != plan.root ==> {
                let d = #[trigger] self.descriptors@[x];
                &&& d.complex_buffer_size == plan.nodes@[x].complex_cells()
                &&& d.complex_offset + d.complex_buffer_size <= self.complex_size
                &&& d.input_offset + d.real_buffer_size <= self.real_size
                &&& d.output_offset + d.real_buffer_size <= self.real_size
            }
    }

    /// No two boundary nodes of a periodic solve share a cell of the real
    /// arena or of the complex arena.
    pub open spec fn siblings_apart<const GRID_DIMENSION: usize>(
        &self,
        plan: &APPlan<GRID_DIMENSION>,
    ) -> bool {
        forall|p: int, c1: int, c2: int|
            #![trigger plan.is_child(p, c1), plan.is_child(p, c2)]
            plan.is_child(p, c1) && plan.is_child(p, c2) && plan.nodes@[p] is PeriodicSolve && ({
                let n = plan.nodes@[p]->PeriodicSolve_0;
                n.boundary_nodes.start <= c1 < c2 < n.boundary_nodes.end
            }) ==> {
                &&& self.descriptors@[c1].real_cells().disjoint(self.descriptors@[c2].real_cells())
                &&& self.descriptors@[c1].complex_cells().disjoint(
                    self.descriptors@[c2].complex_cells(),
                )
            }
    }

    /// The boundary nodes of a periodic solve lie after both buffers and
    /// after the spectrum of the periodic solve itself.
    pub open spec fn children_after_parent<const GRID_DIMENSION: usize>(
        &self,
        plan: &APPlan<GRID_DIMENSION>,
    ) -> bool {
        forall|p: int, c: int|
            #![trigger plan.is_child(p, c), self.descriptors@[c]]
            plan.is_child(p, c) && plan.nodes@[p] is PeriodicSolve && !(
            plan.nodes@[p]->PeriodicSolve_0.time_cut == Some(c as usize)) ==> {
                let d = self.descriptors@[c];
                let up = self.descriptors@[p];
                &&& up.input_offset + up.real_buffer_size <= d.input_offset
                &&& up.output_offset + up.real_buffer_size <= d.input_offset
                &&& up.complex_offset + up.complex_buffer_size <= d.complex_offset
            }
    }

    /// The node after a time cut runs in the buffers of the node before it,
    /// with input and output swapped, and its spectrum lies after the
    /// spectrum of that node.
    pub open spec fn time_cuts_chained<const GRID_DIMENSION: usize>(
        &self,
        plan: &APPlan<GRID_DIMENSION>,
    ) -> bool {
        forall|p: int|
            0 <= p < plan.nodes@.len() && (#[trigger] plan.nodes@[p]) is PeriodicSolve
                && plan.nodes@[p]->PeriodicSolve_0.time_cut is Some ==> {
                let t = plan.nodes@[p]->PeriodicSolve_0.time_cut->0 as int;
                let d = self.descriptors@[t];
                let up = self.descriptors@[p];
                &&& d.input_offset == up.output_offset
                &&& d.output_offset == up.input_offset
                &&& d.real_buffer_size == up.real_buffer_size
                &&& d.complex_offset == up.complex_offset + up.complex_buffer_size
            }
    }

    /// The nodes that the root runs have no buffers in the real arena: they
    /// run in the buffers of the caller.
    pub open spec fn root_runs_in_place<const GRID_DIMENSION: usize>(
        &self,
        plan: &APPlan<GRID_DIMENSION>,
    ) -> bool {
        forall|x: int|
            plan.is_child(plan.root as int, x) ==> (#[trigger] self.descriptors@[x]).real_buffer_size
                == 0 && self.descriptors@[x].complex_offset == 0
    }

    /// The layout gives every node of `plan` the memory it needs, keeps
    /// apart what runs side by side, and is as large as the root needs.
    pub open spec fn serves<const GRID_DIMENSION: usize>(
        &self,
        plan: &APPlan<GRID_DIMENSION>,
    ) -> bool {
        &&& self.descriptors@.len() == plan.nodes@.len()
        &&& self.real_size == plan.below(plan.root as int, false)
        &&& self.complex_size == plan.below(plan.root as int, true)
        &&& self.boundary_nodes_have_buffers(plan)
        &&& self.nodes_have_spectra(plan)
        &&& self.siblings_apart(plan)
        &&& self.children_after_parent(plan)
        &&& self.time_cuts_chained(plan)
        &&& self.root_runs_in_place(plan)
    }

    /// A layout made of places serves the plan.
    proof fn lemma_places_serve<const GRID_DIMENSION: usize>(
        &self,
        plan: &APPlan<GRID_DIMENSION>,
        places: Places,
    )
        requires
            plan.wf(),
            places.descriptors == self.descriptors@,
            places.descriptors.len() == plan.nodes@.len(),
            places.real_start.len() == plan.nodes@.len(),
            places.complex_start.len() == plan.nodes@.len(),
            self.real_size == plan.below(plan.root as int, false),
            self.complex_size == plan.below(plan.root as int, true),
            forall|q: int, x: int| #[trigger] plan.is_child(q, x) ==> placed(plan, places, q, x),
        ensures
            self.serves(plan),
    {
        let desc = self.descriptors@;
        assert forall|x: int| 0 <= x < plan.nodes@.len() && x != plan.root implies bounded(
            plan,
            places,
            x,
        ) && 0 <= plan.below(x, true) && 0 <= plan.below(x, false) by {
            assert(plan.has_parent(x));
            let p = choose|p: int| #[trigger] plan.is_child(p, x);
            assert(placed(plan, places, p, x));
            plan.lemma_below_nonnegative(x, true);
            plan.lemma_below_nonnegative(x, false);
        }
        assert(self.boundary_nodes_have_buffers(plan)) by {
            assert forall|p: int, c: int|
                #![trigger plan.is_child(p, c), self.descriptors@[c]]
                plan.is_child(p, c) && plan.nodes@[p] is PeriodicSolve && !(
                plan.nodes@[p]->PeriodicSolve_0.time_cut == Some(c as usize)) implies ({
                let d = self.descriptors@[c];
                &&& d.real_buffer_size == plan.nodes@[c].real_cells()
                &&& d.output_offset == d.input_offset + d.real_buffer_size
                &&& d.output_offset + d.real_buffer_size <= self.real_size
            }) by {
                assert(plan.node_ok(p));
                assert(placed(plan, places, p, c));
                plan.lemma_below_nonnegative(c, false);
            }
        }
        assert(self.nodes_have_spectra(plan)) by {
            assert forall|x: int| 0 <= x < plan.nodes@.len() && x != plan.root implies ({
                let d = #[trigger] self.descriptors@[x];
                &&& d.complex_buffer_size == plan.nodes@[x].complex_cells()
                &&& d.complex_offset + d.complex_buffer_size <= self.complex_size
                &&& d.input_offset + d.real_buffer_size <= self.real_size
                &&& d.output_offset + d.real_buffer_size <= self.real_size
            }) by {
                assert(bounded(plan, places, x));
            }
        }
        assert(self.siblings_apart(plan)) by {
            assert forall|p: int, c1: int, c2: int|
                #![trigger plan.is_child(p, c1), plan.is_child(p, c2)]
                plan.is_child(p, c1) && plan.is_child(p, c2) && plan.nodes@[p] is PeriodicSolve && ({
                    let n = plan.nodes@[p]->PeriodicSolve_0;
                    n.boundary_nodes.start <= c1 < c2 < n.boundary_nodes.end
                }) implies ({
                &&& self.descriptors@[c1].real_cells().disjoint(self.descriptors@[c2].real_cells())
                &&& self.descriptors@[c1].complex_cells().disjoint(
                    self.descriptors@[c2].complex_cells(),
                )
            }) by {
                let n = plan.nodes@[p]->PeriodicSolve_0;
                let s = n.boundary_nodes.start as int;
                assert(plan.node_ok(p));
                assert(plan.is_child(p, c1));
                assert(plan.is_child(p, c2));
                assert(placed(plan, places, p, c1));
                assert(placed(plan, places, p, c2));
                plan.lemma_spread_step(p, s, c1, false);
                plan.lemma_spread_step(p, s, c1, true);
                plan.lemma_spread_monotone(p, s, c1 + 1, c2, false);
                plan.lemma_spread_monotone(p, s, c1 + 1, c2, true);
                plan.lemma_below_nonnegative(c1, false);
                plan.lemma_below_nonnegative(c1, true);
                plan.lemma_own_nonnegative(c1, false);
                plan.lemma_own_nonnegative(c1, true);
                let a = desc[c1];
                let b = desc[c2];
                assert(a.input_offset + 2 * a.real_buffer_size <= b.input_offset);
                assert(a.complex_offset + a.complex_buffer_size <= b.complex_offset);
                assert forall|i: int| !(a.real_cells().contains(i) && b.real_cells().contains(i)) by {}
                assert forall|i: int|
                    !(a.complex_cells().contains(i) && b.complex_cells().contains(i)) by {}
            }
        }
        assert(self.children_after_parent(plan)) by {
            assert forall|p: int, c: int|
                #![trigger plan.is_child(p, c), self.descriptors@[c]]
                plan.is_child(p, c) && plan.nodes@[p] is PeriodicSolve && !(
                plan.nodes@[p]->PeriodicSolve_0.time_cut == Some(c as usize)) implies ({
                let d = self.descriptors@[c];
                let up = self.descriptors@[p];
                &&& up.input_offset + up.real_buffer_size <= d.input_offset
                &&& up.output_offset + up.real_buffer_size <= d.input_offset
                &&& up.complex_offset + up.complex_buffer_size <= d.complex_offset
            }) by {
                let n = plan.nodes@[p]->PeriodicSolve_0;
                let s = n.boundary_nodes.start as int;
                assert(plan.node_ok(p));
                assert(placed(plan, places, p, c));
                assert(bounded(plan, places, p));
                plan.lemma_spread_monotone(p, s, s, c, false);
                plan.lemma_spread_monotone(p, s, s, c, true);
            }
        }
        assert(self.time_cuts_chained(plan)) by {
            assert forall|p: int|
                0 <= p < plan.nodes@.len() && (#[trigger] plan.nodes@[p]) is PeriodicSolve
                    && plan.nodes@[p]->PeriodicSolve_0.time_cut is Some implies ({
                let t = plan.nodes@[p]->PeriodicSolve_0.time_cut->0 as int;
                let d = self.descriptors@[t];
                let up = self.descriptors@[p];
                &&& d.input_offset == up.output_offset
                &&& d.output_offset == up.input_offset
                &&& d.real_buffer_size == up.real_buffer_size
                &&& d.complex_offset == up.complex_offset + up.complex_buffer_size
            }) by {
                let t = plan.nodes@[p]->PeriodicSolve_0.time_cut->0 as int;
                assert(plan.node_ok(p));
                assert(plan.is_child(p, t));
                assert(placed(plan, places, p, t));
                assert(bounded(plan, places, p));
            }
        }
        assert(self.root_runs_in_place(plan)) by {
            assert forall|x: int| plan.is_child(plan.root as int, x) implies (
            #[trigger] self.descriptors@[x]).real_buffer_size == 0
                && self.descriptors@[x].complex_offset == 0 by {
                assert(placed(plan, places, plan.root as int, x));
            }
        }
    }
}

/// Lays out the scratch memory of a plan.
pub struct APScratchBuilder;

impl APScratchBuilder {
    /// Lay out the scratch memory for `plan`.  The boundary nodes of a
    /// periodic solve run side by side: each gets two buffers and the space
    /// for the nodes below it, one after the other.  The node after a time
    /// cut runs when they are done: it takes over the buffers of the periodic
    /// solve and reuses the space of its boundary nodes.  There is no layout
    /// where a node needs more cells than can be addressed.
    pub fn build<const GRID_DIMENSION: usize>(plan: &APPlan<GRID_DIMENSION>) -> (r: Option<
        ScratchLayout,
    >)
        requires
            plan.wf(),
        ensures
            r is Some <==> plan.scratch_fits(),
            r is Some ==> (r->0).serves(plan),
    {
        let needs = match measure(plan) {
            Some(needs) => needs,
            None => {
                return None;
            },
        };
        let placement = place(plan, &needs);
        let layout = ScratchLayout {
            descriptors: placement.descriptors,
            real_size: needs.below_real_of(plan, Ghost(plan.nodes@.len() as int), plan.root),
            complex_size: needs.below_complex_of(
                plan,
                Ghost(plan.nodes@.len() as int),
                plan.root,
            ),
        };
        proof {
            layout.lemma_places_serve(plan, placement@);
        }
        Some(layout)
    }
}

} // verus!
