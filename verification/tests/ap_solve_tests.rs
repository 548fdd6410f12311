use nhls::domain::{BCCheck, ConstantCheck, SliceDomain};
use nhls::fft_solver::{
    build_plan, plan_with_direct_walls, APPlan, APSolver, DirectSolveNode, PeriodicSolveNode,
    PlanNode, RepeatNode, RootAction, RootProgress, SolveStep,
};
use nhls::solver::{trapezoid_apply, trapezoid_apply_within, FFTPlan, PlanType};
use nhls::stencil::Stencil;
use nhls::util::{Bounds, Coord, AABB};

use fftw::array::AlignedVec;
use fftw::plan::{C2RPlan, R2CPlan};
use fftw::types::c64;

// A run of a plan on one thread: it does the steps that the library names,
// with the transform of the outside library for the periodic solves.
struct Run<'s, BC, Operation, const GRID_DIMENSION: usize, const NEIGHBORHOOD_SIZE: usize> {
    schedule: &'s APSolver<GRID_DIMENSION>,
    bc: &'s BC,
    stencil: &'s Stencil<Operation, GRID_DIMENSION, NEIGHBORHOOD_SIZE>,
    stencil_slopes: Bounds<GRID_DIMENSION>,
    weights: [f64; NEIGHBORHOOD_SIZE],
}

impl<'s, BC, Operation, const GRID_DIMENSION: usize, const NEIGHBORHOOD_SIZE: usize>
    Run<'s, BC, Operation, GRID_DIMENSION, NEIGHBORHOOD_SIZE>
where
    BC: BCCheck<f64, GRID_DIMENSION>,
    Operation: Fn(&[f64; NEIGHBORHOOD_SIZE]) -> f64,
{
    fn new(
        schedule: &'s APSolver<GRID_DIMENSION>,
        bc: &'s BC,
        stencil: &'s Stencil<Operation, GRID_DIMENSION, NEIGHBORHOOD_SIZE>,
    ) -> Self {
        let mut weights = [0.0; NEIGHBORHOOD_SIZE];
        for i in 0..NEIGHBORHOOD_SIZE {
            let mut basis = [0.0; NEIGHBORHOOD_SIZE];
            basis[i] = 1.0;
            weights[i] = stencil.apply(&basis);
        }
        let stencil_slopes = stencil.slopes();
        assert!(schedule.plan.check_fit(&stencil_slopes));
        Run { schedule, bc, stencil, stencil_slopes, weights }
    }

    // `steps` applications of the stencil to a periodic field on `aabb`.
    fn convolve(
        &self,
        aabb: AABB<GRID_DIMENSION>,
        steps: usize,
        input: &[f64],
        output: &mut [f64],
    ) {
        let n = aabb.buffer_size();
        let n_c = aabb.complex_buffer_size();
        let mut plan = FFTPlan::new(aabb, PlanType::Estimate).ok().unwrap();
        let mut kernel = AlignedVec::<f64>::new(n);
        let size = aabb.exclusive_bounds();
        let origin = aabb.min();
        for (offset, weight) in self.stencil.offsets().iter().zip(self.weights.iter()) {
            let mut cell: Coord<GRID_DIMENSION> = origin;
            for d in 0..GRID_DIMENSION {
                let wrapped = (-(offset[d] as i64)).rem_euclid(size[d] as i64);
                cell[d] = (origin[d] as i64 + wrapped) as i32;
            }
            kernel[aabb.coord_to_linear(&cell)] += *weight;
        }
        let mut kernel_spectrum = AlignedVec::<c64>::new(n_c);
        let forward: &mut fftw::plan::R2CPlan64 = &mut plan.forward_plan.plan;
        forward.r2c(&mut kernel, &mut kernel_spectrum).unwrap();
        let mut field = AlignedVec::<f64>::new(n);
        field.copy_from_slice(&input[..n]);
        let mut spectrum = AlignedVec::<c64>::new(n_c);
        forward.r2c(&mut field, &mut spectrum).unwrap();
        for i in 0..n_c {
            for _ in 0..steps {
                spectrum[i] *= kernel_spectrum[i];
            }
        }
        let mut result = AlignedVec::<f64>::new(n);
        let backward: &mut fftw::plan::C2RPlan64 = &mut plan.backward_plan.plan;
        backward.c2r(&mut spectrum, &mut result).unwrap();
        for i in 0..n {
            output[i] = result[i] / n as f64;
        }
    }

    fn shrink<'b>(
        target: &mut SliceDomain<'b, f64, GRID_DIMENSION>,
        source: &mut SliceDomain<'b, f64, GRID_DIMENSION>,
        aabb: AABB<GRID_DIMENSION>,
    ) {
        assert!(source.aabb().contains_aabb(&aabb));
        assert!(aabb.buffer_size() <= target.buffer().len());
        assert!(aabb.buffer_size() <= source.buffer().len());
        target.set_aabb(aabb);
        target.from_superset(source);
        source.set_aabb(aabb);
    }

    // `arena` holds the cells of the real arena from `base` on.
    fn run_steps<'b>(
        &self,
        steps: Vec<SolveStep<GRID_DIMENSION>>,
        input: &mut SliceDomain<'b, f64, GRID_DIMENSION>,
        output: &mut SliceDomain<'b, f64, GRID_DIMENSION>,
        arena: &mut [f64],
        base: usize,
    ) {
        for step in steps {
            match step {
                SolveStep::Swap => std::mem::swap(input, output),
                SolveStep::ShrinkInput { aabb } => Self::shrink(input, output, aabb),
                SolveStep::ShrinkOutput { aabb } => Self::shrink(output, input, aabb),
                SolveStep::Convolve { node, convolution_id: _ } => {
                    let periodic_solve = self.schedule.plan.unwrap_periodic_node(node);
                    assert_eq!(*input.aabb(), periodic_solve.input_aabb);
                    assert_eq!(*output.aabb(), periodic_solve.input_aabb);
                    let spectrum = self.schedule.get_complex(node);
                    assert_eq!(
                        spectrum.end - spectrum.start,
                        periodic_solve.input_aabb.complex_buffer_size()
                    );
                    assert!(spectrum.end <= self.schedule.complex_scratch_size);
                    self.convolve(
                        periodic_solve.input_aabb,
                        periodic_solve.steps,
                        input.buffer(),
                        output.buffer_mut(),
                    );
                }
                SolveStep::Boundary { nodes } => {
                    for node_id in nodes {
                        self.run_boundary_node(node_id, input, output, arena, base);
                    }
                }
                SolveStep::Direct { sloped_sides, steps } => {
                    assert_eq!(input.aabb(), output.aabb());
                    assert_eq!(
                        trapezoid_apply(
                            self.bc,
                            self.stencil,
                            input,
                            output,
                            &sloped_sides,
                            &self.stencil_slopes,
                            steps,
                        ),
                        Ok(())
                    );
                }
                SolveStep::AOBDirect { input_aabb, sloped_sides, steps } => {
                    assert_eq!(input.aabb(), output.aabb());
                    assert_eq!(
                        trapezoid_apply_within(
                            self.bc,
                            self.stencil,
                            input,
                            output,
                            &input_aabb,
                            &sloped_sides,
                            &self.stencil_slopes,
                            steps,
                        ),
                        Ok(())
                    );
                }
                SolveStep::Continue { node } => {
                    let steps = self.schedule.unknown_solve_preallocated_io(node);
                    self.run_steps(steps, input, output, arena, base);
                }
            }
        }
    }

    fn run_boundary_node(
        &self,
        node_id: usize,
        input: &SliceDomain<'_, f64, GRID_DIMENSION>,
        output: &mut SliceDomain<'_, f64, GRID_DIMENSION>,
        arena: &mut [f64],
        base: usize,
    ) {
        let domains = self.schedule.unknown_solve_allocate_io(node_id).ok().unwrap();
        let cells = domains.input.end - domains.input.start;
        // The buffers of a boundary node lie behind everything that is in
        // use while it runs, one right after the other.
        assert!(domains.input.start >= base);
        assert_eq!(domains.output.start, domains.input.end);
        assert_eq!(domains.output.end - domains.output.start, cells);
        assert!(domains.output.end <= self.schedule.real_scratch_size);
        let own = &mut arena[domains.input.start - base..];
        let (input_cells, rest) = own.split_at_mut(cells);
        let (output_cells, below) = rest.split_at_mut(cells);
        let mut input_domain = SliceDomain::new(domains.aabb, input_cells).ok().unwrap();
        let mut output_domain = SliceDomain::new(domains.aabb, output_cells).ok().unwrap();

        assert!(input.aabb().contains_aabb(input_domain.aabb()));
        input_domain.from_superset(input);

        let steps = self.schedule.unknown_solve_preallocated_io(node_id);
        self.run_steps(steps, &mut input_domain, &mut output_domain, below, domains.output.end);
        assert_eq!(*output_domain.aabb(), self.schedule.plan.result_aabb(node_id));

        assert!(output.aabb().contains_aabb(output_domain.aabb()));
        output.set_subdomain(&output_domain);
    }

    fn solve_root<'b>(
        &self,
        input: &mut SliceDomain<'b, f64, GRID_DIMENSION>,
        output: &mut SliceDomain<'b, f64, GRID_DIMENSION>,
    ) {
        let mut arena = vec![0.0; self.schedule.real_scratch_size];
        let mut at = RootProgress { round: 0, ran: false };
        while let Some(action) = self.schedule.solve_root(at) {
            match action {
                RootAction::Run { node } => {
                    let steps = self.schedule.periodic_solve_preallocated_io(node, false);
                    self.run_steps(steps, input, output, &mut arena, 0);
                }
                RootAction::Swap => std::mem::swap(input, output),
            }
            at = self.schedule.root_next(at);
        }
    }
}

fn direct(input: [i32; 2], output: [i32; 2], sloped_sides: [i32; 2], steps: usize) -> PlanNode<1> {
    PlanNode::DirectSolve(DirectSolveNode {
        input_aabb: AABB::new([input]),
        output_aabb: AABB::new([output]),
        sloped_sides: [sloped_sides],
        steps,
    })
}

fn periodic(
    input: [i32; 2],
    output: [i32; 2],
    steps: usize,
    boundary_nodes: std::ops::Range<usize>,
    time_cut: Option<usize>,
) -> PlanNode<1> {
    PlanNode::PeriodicSolve(PeriodicSolveNode {
        input_aabb: AABB::new([input]),
        output_aabb: AABB::new([output]),
        convolution_id: 0,
        steps,
        boundary_nodes,
        time_cut,
    })
}

// Run `plan` with the library and compare with the same number of steps
// taken cell by cell on the whole grid.
fn compare_with_direct_solve<
    Operation,
    const GRID_DIMENSION: usize,
    const NEIGHBORHOOD_SIZE: usize,
>(
    plan: APPlan<GRID_DIMENSION>,
    stencil: &Stencil<Operation, GRID_DIMENSION, NEIGHBORHOOD_SIZE>,
    grid: AABB<GRID_DIMENSION>,
    boundary_value: f64,
    initial: &[f64],
    total_steps: usize,
    tolerance: f64,
) -> Vec<f64>
where
    Operation: Fn(&[f64; NEIGHBORHOOD_SIZE]) -> f64,
{
    let n = grid.buffer_size();
    let bc = ConstantCheck::new(boundary_value, grid);
    let schedule = APSolver::new(plan, 10).ok().unwrap();

    let mut ap_first = initial.to_vec();
    let mut ap_second = vec![0.0; n];
    let result = {
        let mut input = SliceDomain::new(grid, &mut ap_first).ok().unwrap();
        let mut output = SliceDomain::new(grid, &mut ap_second).ok().unwrap();
        let run = Run::new(&schedule, &bc, stencil);
        run.solve_root(&mut input, &mut output);
        assert_eq!(*output.aabb(), grid);
        output.buffer()[..n].to_vec()
    };

    let mut direct_first = initial.to_vec();
    let mut direct_second = vec![0.0; n];
    let expected = {
        let mut input = SliceDomain::new(grid, &mut direct_first).ok().unwrap();
        let mut output = SliceDomain::new(grid, &mut direct_second).ok().unwrap();
        assert_eq!(
            trapezoid_apply(
                &bc,
                stencil,
                &mut input,
                &mut output,
                &[[0, 0]; GRID_DIMENSION],
                &stencil.slopes(),
                total_steps,
            ),
            Ok(())
        );
        output.buffer()[..n].to_vec()
    };

    for i in 0..n {
        assert!(
            (result[i] - expected[i]).abs() <= tolerance,
            "cell {}: {} and {}",
            i,
            result[i],
            expected[i]
        );
    }
    result
}

#[test]
fn identity_on_an_empty_grid_stays_empty() {
    let stencil = Stencil::new([[0]], |args: &[f64; 1]| 1.0 * args[0]);
    let grid = AABB::new([[0, 99]]);
    let plan = APPlan {
        nodes: vec![
            periodic([0, 99], [0, 99], 10, 0..0, None),
            PlanNode::Repeat(RepeatNode { n: 1, node: 0, next: None }),
        ],
        root: 1,
    };
    let initial = vec![0.0; 100];
    let result = compare_with_direct_solve(plan, &stencil, grid, 1.0, &initial, 10, 1e-12);
    for x in result {
        assert!(x.abs() <= 1e-12);
    }
}

#[test]
fn averaging_a_field_of_ones_with_ones_outside_keeps_it() {
    let third = 1.0 / 3.0;
    let stencil = Stencil::new([[-1], [0], [1]], move |args: &[f64; 3]| {
        third * args[0] + third * args[1] + third * args[2]
    });
    let grid = AABB::new([[0, 99]]);
    let plan = APPlan {
        nodes: vec![
            direct([0, 31], [0, 15], [0, 1], 16),
            direct([68, 99], [84, 99], [1, 0], 16),
            periodic([0, 99], [16, 83], 16, 0..2, None),
            PlanNode::Repeat(RepeatNode { n: 1, node: 2, next: None }),
        ],
        root: 3,
    };
    let initial = vec![1.0; 100];
    let result = compare_with_direct_solve(plan, &stencil, grid, 1.0, &initial, 16, 1e-12);
    for x in result {
        assert!((x - 1.0).abs() <= 1e-12);
    }
}

fn heat(k: f64) -> impl Fn(&[f64; 3]) -> f64 {
    move |args: &[f64; 3]| args[1] + k * (args[0] - 2.0 * args[1] + args[2])
}

fn bump(n: usize) -> Vec<f64> {
    let n_f = n as f64;
    let sigma_sq = (n_f / 25.0) * (n_f / 25.0);
    (0..n)
        .map(|i| {
            let x = i as f64 - n_f / 2.0;
            (-x * x / (2.0 * sigma_sq)).exp() + 0.25 * (i as f64 / n_f)
        })
        .collect()
}

#[test]
fn heat_with_walls_solved_directly() {
    let stencil = Stencil::new([[-1], [0], [1]], heat(0.5));
    let grid = AABB::new([[0, 199]]);
    let plan = APPlan {
        nodes: vec![
            direct([0, 39], [0, 19], [0, 1], 20),
            direct([160, 199], [180, 199], [1, 0], 20),
            periodic([0, 199], [20, 179], 20, 0..2, None),
            PlanNode::Repeat(RepeatNode { n: 3, node: 2, next: None }),
        ],
        root: 3,
    };
    compare_with_direct_solve(plan, &stencil, grid, 0.75, &bump(200), 60, 1e-9);
}

#[test]
fn heat_with_a_wall_that_is_cut_in_time() {
    let stencil = Stencil::new([[-1], [0], [1]], heat(0.25));
    let grid = AABB::new([[0, 199]]);
    // The left wall is a periodic solve of five steps, whose own left wall
    // is direct, followed after a time cut by fifteen direct steps.
    let plan = APPlan {
        nodes: vec![
            direct([0, 9], [0, 4], [0, 1], 5),
            direct([0, 34], [0, 19], [0, 1], 15),
            periodic([0, 39], [0, 34], 5, 0..1, Some(1)),
            direct([160, 199], [180, 199], [1, 0], 20),
            periodic([0, 199], [20, 179], 20, 2..4, None),
            PlanNode::Repeat(RepeatNode { n: 2, node: 4, next: None }),
        ],
        root: 5,
    };
    compare_with_direct_solve(plan, &stencil, grid, -0.5, &bump(200), 40, 1e-9);
}

#[test]
fn repeats_followed_by_a_shorter_solve() {
    let stencil = Stencil::new([[-1], [0], [1]], heat(0.5));
    let grid = AABB::new([[0, 99]]);
    // Two rounds of ten steps and one of four.
    let plan = APPlan {
        nodes: vec![
            direct([0, 19], [0, 9], [0, 1], 10),
            direct([80, 99], [90, 99], [1, 0], 10),
            periodic([0, 99], [10, 89], 10, 0..2, None),
            direct([0, 7], [0, 3], [0, 1], 4),
            direct([92, 99], [96, 99], [1, 0], 4),
            periodic([0, 99], [4, 95], 4, 3..5, None),
            PlanNode::Repeat(RepeatNode { n: 2, node: 2, next: Some(5) }),
        ],
        root: 6,
    };
    compare_with_direct_solve(plan, &stencil, grid, 0.0, &bump(100), 24, 1e-9);
}

// The plan of one periodic solve over the whole grid whose walls are solved
// directly, run `rounds` times.
fn walls_plan<const GRID_DIMENSION: usize>(
    grid: AABB<GRID_DIMENSION>,
    stencil_slopes: Bounds<GRID_DIMENSION>,
    steps: usize,
    rounds: usize,
) -> APPlan<GRID_DIMENSION> {
    plan_with_direct_walls(grid, &stencil_slopes, steps, steps * rounds).ok().unwrap()
}

fn ripples<const GRID_DIMENSION: usize>(grid: &AABB<GRID_DIMENSION>) -> Vec<f64> {
    grid.coord_iter()
        .iter()
        .map(|c| {
            let mut v = 1.0;
            for d in 0..GRID_DIMENSION {
                v *= (0.3 * c[d] as f64 + d as f64).sin();
            }
            v
        })
        .collect()
}

#[test]
fn a_stencil_that_reaches_further_on_one_side() {
    let stencil = Stencil::new([[-2], [0], [1]], |args: &[f64; 3]| {
        0.2 * args[0] + 0.5 * args[1] + 0.3 * args[2]
    });
    assert_eq!(stencil.slopes(), [[2, 1]]);
    let grid = AABB::new([[-10, 109]]);
    let plan = walls_plan(grid, stencil.slopes(), 12, 2);
    assert_eq!(plan.unwrap_periodic_node(2).output_aabb, AABB::new([[14, 97]]));
    assert_eq!(plan.unwrap_direct_node(0).input_aabb, AABB::new([[-10, 25]]));
    assert_eq!(plan.unwrap_direct_node(1).input_aabb, AABB::new([[74, 109]]));
    compare_with_direct_solve(plan, &stencil, grid, 2.0, &ripples(&grid), 24, 1e-9);
}

#[test]
fn heat_on_a_plane() {
    let stencil = Stencil::new(
        [[0, 0], [-1, 0], [1, 0], [0, -1], [0, 1]],
        |args: &[f64; 5]| 0.6 * args[0] + 0.1 * (args[1] + args[2] + args[3] + args[4]),
    );
    let grid = AABB::new([[0, 39], [0, 29]]);
    let plan = walls_plan(grid, stencil.slopes(), 6, 3);
    assert_eq!(plan.len(), 6);
    assert_eq!(plan.unwrap_periodic_node(4).output_aabb, AABB::new([[6, 33], [6, 23]]));
    assert_eq!(plan.unwrap_direct_node(2).output_aabb, AABB::new([[6, 33], [0, 5]]));
    assert_eq!(plan.unwrap_direct_node(2).input_aabb, AABB::new([[0, 39], [0, 11]]));
    assert_eq!(plan.unwrap_direct_node(2).sloped_sides, [[1, 1], [0, 1]]);
    compare_with_direct_solve(plan, &stencil, grid, 0.5, &ripples(&grid), 18, 1e-9);
}

#[test]
fn heat_in_space() {
    let stencil = Stencil::new(
        [[0, 0, 0], [-1, 0, 0], [1, 0, 0], [0, -1, 0], [0, 1, 0], [0, 0, -1], [0, 0, 1]],
        |args: &[f64; 7]| {
            0.4 * args[0]
                + 0.1 * (args[1] + args[2] + args[3] + args[4] + args[5] + args[6])
        },
    );
    let grid = AABB::new([[0, 11], [-3, 9], [5, 14]]);
    let plan = walls_plan(grid, stencil.slopes(), 2, 2);
    assert_eq!(plan.len(), 8);
    compare_with_direct_solve(plan, &stencil, grid, -1.0, &ripples(&grid), 4, 1e-9);
}

#[test]
fn planned_rounds_with_a_shorter_last_round() {
    let stencil = Stencil::new([[-1], [0], [1]], heat(0.5));
    let grid = AABB::new([[0, 99]]);
    let plan = plan_with_direct_walls(grid, &stencil.slopes(), 10, 24).ok().unwrap();
    assert_eq!(plan.len(), 7);
    compare_with_direct_solve(plan, &stencil, grid, 0.0, &bump(100), 24, 1e-9);
}

#[test]
fn planned_rounds_for_a_stencil_that_looks_one_way() {
    let stencil = Stencil::new([[0], [1]], |args: &[f64; 2]| 0.75 * args[0] + 0.25 * args[1]);
    assert_eq!(stencil.slopes(), [[0, 1]]);
    let grid = AABB::new([[0, 63]]);
    let plan = plan_with_direct_walls(grid, &stencil.slopes(), 8, 20).ok().unwrap();
    // Only the upper wall holds cells.
    assert_eq!(plan.len(), 5);
    assert_eq!(plan.unwrap_direct_node(0).output_aabb, AABB::new([[56, 63]]));
    assert_eq!(plan.unwrap_periodic_node(1).output_aabb, AABB::new([[0, 55]]));
    compare_with_direct_solve(plan, &stencil, grid, 1.5, &ripples(&grid), 20, 1e-9);
}

#[test]
fn built_plan_on_a_plane() {
    let stencil = Stencil::new(
        [[0, 0], [-1, 0], [1, 0], [0, -1], [0, 1]],
        |args: &[f64; 5]| 0.6 * args[0] + 0.1 * (args[1] + args[2] + args[3] + args[4]),
    );
    let grid = AABB::new([[0, 39], [0, 29]]);
    // More than half of the 1200 cells: rounds of four steps leave 32 x 22.
    let plan = build_plan(grid, &stencil.slopes(), 10, 100, 8, 601).ok().unwrap();
    let root = plan.unwrap_repeat_node(plan.root);
    assert_eq!((root.n, root.next.is_some()), (2, true));
    assert_eq!(plan.unwrap_periodic_node(root.node).steps, 4);
    assert_eq!(plan.unwrap_periodic_node(root.next.unwrap()).steps, 2);
    compare_with_direct_solve(plan, &stencil, grid, 0.25, &ripples(&grid), 10, 1e-9);
}
