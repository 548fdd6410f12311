use nhls::error::SolveError;
use nhls::fft_solver::{
    AOBDirectSolveNode, APPlan, APScratchBuilder, APSolver, DirectSolveNode, PeriodicSolveNode,
    PlanNode, RepeatNode, RootAction, RootProgress, ScratchDescriptor, ScratchDomains, SolveStep,
};
use nhls::fft_solver::plan_regions::direct_fits;
use nhls::util::AABB;

fn direct(lo: i32, hi: i32) -> PlanNode<1> {
    PlanNode::DirectSolve(DirectSolveNode {
        input_aabb: AABB::new([[lo, hi]]),
        output_aabb: AABB::new([[lo, hi]]),
        sloped_sides: [[1, 1]],
        steps: 4,
    })
}

fn periodic(
    lo: i32,
    hi: i32,
    boundary_nodes: std::ops::Range<usize>,
    time_cut: Option<usize>,
) -> PlanNode<1> {
    PlanNode::PeriodicSolve(PeriodicSolveNode {
        input_aabb: AABB::new([[lo, hi]]),
        output_aabb: AABB::new([[lo + 4, hi - 4]]),
        convolution_id: 7,
        steps: 4,
        boundary_nodes,
        time_cut,
    })
}

// A periodic solve over [0, 99] whose rim is a nested periodic solve with
// two direct solves and a time cut, and a direct solve.
fn nested_plan() -> APPlan<1> {
    APPlan {
        nodes: vec![
            direct(0, 9),
            direct(20, 29),
            direct(0, 29),
            periodic(0, 39, 0..2, Some(2)),
            direct(60, 99),
            periodic(0, 99, 3..5, None),
            PlanNode::Repeat(RepeatNode { n: 2, node: 5, next: None }),
        ],
        root: 6,
    }
}

fn descriptor(
    input_offset: usize,
    output_offset: usize,
    real_buffer_size: usize,
    complex_offset: usize,
    complex_buffer_size: usize,
) -> ScratchDescriptor {
    ScratchDescriptor {
        input_offset,
        output_offset,
        real_buffer_size,
        complex_offset,
        complex_buffer_size,
    }
}

#[test]
fn a_nested_plan_is_valid() {
    assert!(nested_plan().check_validity());
}

#[test]
fn a_plan_needs_a_repeat_node_at_its_root() {
    let mut plan = nested_plan();
    plan.root = 5;
    assert!(!plan.check_validity());
    plan.root = 7;
    assert!(!plan.check_validity());
}

#[test]
fn a_plan_with_a_node_below_two_nodes_is_not_valid() {
    let mut plan = nested_plan();
    plan.nodes[5] = periodic(0, 99, 2..5, None);
    assert!(!plan.check_validity());
}

#[test]
fn a_plan_with_a_time_cut_into_its_own_rim_is_not_valid() {
    let plan = APPlan {
        nodes: vec![
            direct(0, 9),
            direct(20, 29),
            periodic(0, 39, 0..2, Some(1)),
            PlanNode::Repeat(RepeatNode { n: 1, node: 2, next: None }),
        ],
        root: 3,
    };
    assert!(!plan.check_validity());
}

#[test]
fn a_plan_with_a_node_that_nothing_runs_is_not_valid() {
    let mut plan = nested_plan();
    plan.nodes[5] = periodic(0, 99, 3..4, None);
    assert!(!plan.check_validity());
}

#[test]
fn a_plan_whose_nodes_lie_after_their_parent_is_not_valid() {
    let plan = APPlan {
        nodes: vec![
            periodic(0, 39, 1..3, None),
            direct(0, 9),
            direct(20, 29),
            PlanNode::Repeat(RepeatNode { n: 1, node: 0, next: None }),
        ],
        root: 3,
    };
    assert!(!plan.check_validity());
}

#[test]
fn a_plan_with_a_box_that_is_no_box_is_not_valid() {
    let mut plan = nested_plan();
    plan.nodes[4] = direct(99, 60);
    assert!(!plan.check_validity());
}

#[test]
fn a_time_cut_may_not_lead_to_a_larger_region() {
    let mut plan = nested_plan();
    plan.nodes[2] = direct(0, 40);
    assert!(!plan.check_validity());
}

#[test]
fn a_repeat_node_runs_periodic_solves_only() {
    let plan = APPlan {
        nodes: vec![direct(0, 9), PlanNode::Repeat(RepeatNode { n: 1, node: 0, next: None })],
        root: 1,
    };
    assert!(!plan.check_validity());
    let twice = APPlan {
        nodes: vec![
            periodic(0, 39, 0..0, None),
            PlanNode::Repeat(RepeatNode { n: 1, node: 0, next: Some(0) }),
        ],
        root: 1,
    };
    assert!(!twice.check_validity());
}

#[test]
fn plan_nodes_are_handed_out_by_kind() {
    let plan = nested_plan();
    assert_eq!(plan.len(), 7);
    assert_eq!(plan.get_node(4), &direct(60, 99));
    assert_eq!(plan.unwrap_direct_node(4).input_aabb, AABB::new([[60, 99]]));
    assert_eq!(plan.unwrap_periodic_node(3).boundary_nodes, 0..2);
    assert_eq!(plan.unwrap_repeat_node(6), &RepeatNode { n: 2, node: 5, next: None });
    assert_eq!(plan.node_cells(3), Some(40));
    assert_eq!(plan.node_cells(6), None);
    let aob = APPlan {
        nodes: vec![PlanNode::AOBDirectSolve(AOBDirectSolveNode {
            init_input_aabb: AABB::new([[0, 9], [0, 4]]),
            input_aabb: AABB::new([[0, 9], [0, 3]]),
            output_aabb: AABB::new([[0, 5], [0, 3]]),
            sloped_sides: [[0, 1], [0, 0]],
            steps: 4,
        })],
        root: 0,
    };
    assert_eq!(aob.unwrap_aob_direct_node(0).steps, 4);
    assert_eq!(aob.node_cells(0), Some(50));
}

#[test]
fn scratch_layout_of_a_nested_plan() {
    let plan = nested_plan();
    let layout = APScratchBuilder::build(&plan).unwrap();
    assert_eq!(layout.real_size, 200);
    assert_eq!(layout.complex_size, 72);
    assert_eq!(
        layout.descriptors,
        vec![
            descriptor(80, 90, 10, 72, 0),
            descriptor(100, 110, 10, 72, 0),
            descriptor(40, 0, 40, 72, 0),
            descriptor(0, 40, 40, 51, 21),
            descriptor(120, 160, 40, 72, 0),
            descriptor(0, 0, 0, 0, 51),
            descriptor(0, 0, 0, 0, 0),
        ]
    );
}

fn overlap(a: usize, a_len: usize, b: usize, b_len: usize) -> bool {
    a < b + b_len && b < a + a_len
}

// For every periodic solve, the buffers of its boundary nodes may not
// overlap each other or the buffers of the periodic solve.
fn check_apart(plan: &APPlan<1>, descriptors: &[ScratchDescriptor]) {
    for (id, node) in plan.nodes.iter().enumerate() {
        if let PlanNode::PeriodicSolve(p) = node {
            let up = descriptors[id];
            for c1 in p.boundary_nodes.clone() {
                let a = descriptors[c1];
                assert_eq!(a.real_buffer_size, plan.node_cells(c1).unwrap());
                assert!(!overlap(a.input_offset, a.real_buffer_size, a.output_offset, a.real_buffer_size));
                for start in [a.input_offset, a.output_offset] {
                    assert!(!overlap(start, a.real_buffer_size, up.input_offset, up.real_buffer_size));
                    assert!(!overlap(start, a.real_buffer_size, up.output_offset, up.real_buffer_size));
                }
                for c2 in p.boundary_nodes.clone() {
                    if c1 != c2 {
                        let b = descriptors[c2];
                        for x in [a.input_offset, a.output_offset] {
                            for y in [b.input_offset, b.output_offset] {
                                assert!(!overlap(x, a.real_buffer_size, y, b.real_buffer_size));
                            }
                        }
                        assert!(!overlap(
                            a.complex_offset,
                            a.complex_buffer_size,
                            b.complex_offset,
                            b.complex_buffer_size
                        ));
                    }
                }
            }
        }
    }
}

#[test]
fn boundary_nodes_do_not_share_scratch() {
    let plan = nested_plan();
    let layout = APScratchBuilder::build(&plan).unwrap();
    check_apart(&plan, &layout.descriptors);

    let wide = APPlan {
        nodes: vec![
            direct(0, 4),
            periodic(5, 20, 0..0, None),
            direct(21, 30),
            periodic(31, 60, 0..0, None),
            periodic(0, 99, 0..4, None),
            PlanNode::Repeat(RepeatNode { n: 1, node: 4, next: None }),
        ],
        root: 5,
    };
    assert!(wide.check_validity());
    let layout = APScratchBuilder::build(&wide).unwrap();
    check_apart(&wide, &layout.descriptors);
    assert_eq!(layout.real_size, 2 * (5 + 16 + 10 + 30));
    assert_eq!(layout.complex_size, 51 + 9 + 16);
}

#[test]
fn a_second_root_node_reuses_the_scratch_of_the_first() {
    let plan = APPlan {
        nodes: vec![
            direct(0, 9),
            periodic(0, 99, 0..1, None),
            direct(0, 29),
            periodic(0, 59, 2..3, None),
            PlanNode::Repeat(RepeatNode { n: 5, node: 1, next: Some(3) }),
        ],
        root: 4,
    };
    assert!(plan.check_validity());
    let layout = APScratchBuilder::build(&plan).unwrap();
    assert_eq!(layout.real_size, 60);
    assert_eq!(layout.complex_size, 51);
    assert_eq!(layout.descriptors[0], descriptor(0, 10, 10, 51, 0));
    assert_eq!(layout.descriptors[2], descriptor(0, 30, 30, 31, 0));
    assert_eq!(layout.descriptors[1], descriptor(0, 0, 0, 0, 51));
    assert_eq!(layout.descriptors[3], descriptor(0, 0, 0, 0, 31));
}

#[test]
fn a_solver_takes_a_valid_plan_only() {
    let solver = APSolver::new(nested_plan(), 100).ok().unwrap();
    assert_eq!(solver.chunk_size, 100);
    assert_eq!(solver.real_scratch_size, 200);
    assert_eq!(solver.complex_scratch_size, 72);
    assert_eq!(solver.plan, nested_plan());

    let mut broken = nested_plan();
    broken.root = 0;
    assert_eq!(APSolver::new(broken, 100).err(), Some(SolveError::InvariantViolation));
}

#[test]
fn the_root_repeats_and_then_swaps() {
    let solver = APSolver::new(nested_plan(), 100).ok().unwrap();
    let mut at = RootProgress { round: 0, ran: false };
    let mut actions = Vec::new();
    assert_eq!(solver.apply(), Some(RootAction::Run { node: 5 }));
    while let Some(action) = solver.solve_root(at) {
        actions.push(action);
        at = solver.root_next(at);
    }
    assert_eq!(
        actions,
        vec![
            RootAction::Run { node: 5 },
            RootAction::Swap,
            RootAction::Run { node: 5 },
            RootAction::Swap,
            RootAction::Swap,
        ]
    );
    assert_eq!(solver.solve_root(at), None);
}

#[test]
fn the_root_ends_with_its_second_node() {
    let plan = APPlan {
        nodes: vec![
            periodic(0, 99, 0..0, None),
            periodic(0, 59, 0..0, None),
            PlanNode::Repeat(RepeatNode { n: 1, node: 0, next: Some(1) }),
        ],
        root: 2,
    };
    let solver = APSolver::new(plan, 10).ok().unwrap();
    let mut at = RootProgress { round: 0, ran: false };
    let mut actions = Vec::new();
    while let Some(action) = solver.solve_root(at) {
        actions.push(action);
        at = solver.root_next(at);
    }
    assert_eq!(
        actions,
        vec![RootAction::Run { node: 0 }, RootAction::Swap, RootAction::Run { node: 1 }]
    );
}

#[test]
fn steps_of_a_periodic_solve() {
    let solver = APSolver::new(nested_plan(), 100).ok().unwrap();
    assert_eq!(
        solver.periodic_solve_preallocated_io(5, false),
        vec![
            SolveStep::Swap,
            SolveStep::ShrinkInput { aabb: AABB::new([[0, 99]]) },
            SolveStep::Convolve { node: 5, convolution_id: 7 },
            SolveStep::Boundary { nodes: 3..5 },
        ]
    );
    assert_eq!(
        solver.periodic_solve_preallocated_io(3, true),
        vec![
            SolveStep::Swap,
            SolveStep::ShrinkInput { aabb: AABB::new([[0, 39]]) },
            SolveStep::Convolve { node: 3, convolution_id: 7 },
            SolveStep::Boundary { nodes: 0..2 },
            SolveStep::Swap,
            SolveStep::ShrinkOutput { aabb: AABB::new([[4, 35]]) },
            SolveStep::Swap,
            SolveStep::Continue { node: 2 },
        ]
    );
    assert_eq!(
        solver.unknown_solve_preallocated_io(3),
        solver.periodic_solve_preallocated_io(3, true)
    );
}

#[test]
fn steps_of_direct_solves() {
    let solver = APSolver::new(nested_plan(), 100).ok().unwrap();
    let expected = vec![
        SolveStep::Swap,
        SolveStep::ShrinkInput { aabb: AABB::new([[60, 99]]) },
        SolveStep::Direct { sloped_sides: [[1, 1]], steps: 4 },
    ];
    assert_eq!(solver.direct_solve_preallocated_io(4), expected);
    assert_eq!(solver.unknown_solve_preallocated_io(4), expected);

    let plan = APPlan {
        nodes: vec![
            PlanNode::AOBDirectSolve(AOBDirectSolveNode {
                init_input_aabb: AABB::new([[0, 19]]),
                input_aabb: AABB::new([[0, 15]]),
                output_aabb: AABB::new([[0, 11]]),
                sloped_sides: [[0, 1]],
                steps: 4,
            }),
            periodic(0, 99, 0..1, None),
            PlanNode::Repeat(RepeatNode { n: 1, node: 1, next: None }),
        ],
        root: 2,
    };
    let solver = APSolver::new(plan, 100).ok().unwrap();
    let expected = vec![
        SolveStep::Swap,
        SolveStep::ShrinkInput { aabb: AABB::new([[0, 19]]) },
        SolveStep::AOBDirect {
            input_aabb: AABB::new([[0, 15]]),
            sloped_sides: [[0, 1]],
            steps: 4,
        },
    ];
    assert_eq!(solver.aob_direct_solve_preallocated_io(0), expected);
    assert_eq!(solver.unknown_solve_preallocated_io(0), expected);
    assert_eq!(
        solver.aob_direct_solve_allocate_io(0),
        Ok(ScratchDomains { aabb: AABB::new([[0, 19]]), input: 0..20, output: 20..40 })
    );
    assert_eq!(solver.unknown_solve_allocate_io(0), solver.aob_direct_solve_allocate_io(0));
}

#[test]
fn scratch_domains_of_boundary_nodes() {
    let solver = APSolver::new(nested_plan(), 100).ok().unwrap();
    assert_eq!(
        solver.periodic_solve_allocate_io(3),
        Ok(ScratchDomains { aabb: AABB::new([[0, 39]]), input: 0..40, output: 40..80 })
    );
    assert_eq!(
        solver.direct_solve_allocate_io(4),
        Ok(ScratchDomains { aabb: AABB::new([[60, 99]]), input: 120..160, output: 160..200 })
    );
    assert_eq!(
        solver.unknown_solve_allocate_io(1),
        Ok(ScratchDomains { aabb: AABB::new([[20, 29]]), input: 100..110, output: 110..120 })
    );
    assert_eq!(solver.unknown_solve_allocate_io(3), solver.periodic_solve_allocate_io(3));
    assert_eq!(solver.get_complex(3), 51..72);
    assert_eq!(solver.get_complex(5), 0..51);
}

#[test]
fn scratch_domains_must_hold_the_region() {
    let solver = APSolver::new(nested_plan(), 100).ok().unwrap();
    assert_eq!(
        solver.get_input_output(0, &AABB::new([[0, 9]])),
        Ok(ScratchDomains { aabb: AABB::new([[0, 9]]), input: 80..90, output: 90..100 })
    );
    assert_eq!(
        solver.get_input_output(0, &AABB::new([[0, 4]])),
        Ok(ScratchDomains { aabb: AABB::new([[0, 4]]), input: 80..90, output: 90..100 })
    );
    assert_eq!(
        solver.get_input_output(0, &AABB::new([[0, 10]])),
        Err(SolveError::DomainTooSmall)
    );
}

fn direct_between(
    input: [i32; 2],
    output: [i32; 2],
    sloped_sides: [i32; 2],
    steps: usize,
) -> PlanNode<1> {
    PlanNode::DirectSolve(DirectSolveNode {
        input_aabb: AABB::new([input]),
        output_aabb: AABB::new([output]),
        sloped_sides: [sloped_sides],
        steps,
    })
}

fn periodic_between(
    input: [i32; 2],
    output: [i32; 2],
    steps: usize,
    boundary_nodes: std::ops::Range<usize>,
    time_cut: Option<usize>,
) -> PlanNode<1> {
    PlanNode::PeriodicSolve(PeriodicSolveNode {
        input_aabb: AABB::new([input]),
        output_aabb: AABB::new([output]),
        convolution_id: 0,
        steps,
        boundary_nodes,
        time_cut,
    })
}

// Twenty steps on [0, 199] with a stencil that reaches one cell either way.
// The left wall is solved by a periodic solve of five steps, whose own left
// wall is direct, followed after a time cut by a direct solve of fifteen
// steps; the right wall is direct.
fn fitting_plan() -> APPlan<1> {
    APPlan {
        nodes: vec![
            direct_between([0, 9], [0, 4], [0, 1], 5),
            direct_between([0, 34], [0, 19], [0, 1], 15),
            periodic_between([0, 39], [0, 34], 5, 0..1, Some(1)),
            direct_between([160, 199], [180, 199], [1, 0], 20),
            periodic_between([0, 199], [20, 179], 20, 2..4, None),
            PlanNode::Repeat(RepeatNode { n: 3, node: 4, next: None }),
        ],
        root: 5,
    }
}

#[test]
fn regions_of_a_plan_fit_together() {
    let plan = fitting_plan();
    assert!(plan.check_validity());
    assert!(plan.check_fit(&[[1, 1]]));
    for k in 0..5 {
        assert!(plan.check_node_fits(&[[1, 1]], k));
    }
    assert_eq!(plan.run_aabb(2), AABB::new([[0, 39]]));
    assert_eq!(plan.result_aabb(2), AABB::new([[0, 19]]));
    assert_eq!(plan.result_aabb(4), AABB::new([[20, 179]]));
    assert_eq!(plan.result_aabb(3), AABB::new([[180, 199]]));
}

#[test]
fn regions_must_fit_the_stencil_slopes() {
    let plan = fitting_plan();
    assert!(!plan.check_fit(&[[1, 2]]));
    assert!(!plan.check_node_fits(&[[1, 2]], 0));
    assert!(plan.check_node_fits(&[[1, 2]], 3));
    assert!(plan.check_node_fits(&[[1, 2]], 4));
    assert!(!nested_plan().check_fit(&[[1, 1]]));
}

#[test]
fn a_boundary_node_must_stay_inside_its_periodic_solve() {
    let mut plan = fitting_plan();
    plan.nodes[3] = direct_between([160, 200], [180, 200], [1, 0], 20);
    assert!(plan.check_validity());
    assert!(plan.check_node_fits(&[[1, 1]], 3));
    assert!(!plan.check_node_fits(&[[1, 1]], 4));
    assert!(!plan.check_fit(&[[1, 1]]));
}

#[test]
fn a_time_cut_must_hand_over_enough() {
    let mut plan = fitting_plan();
    plan.nodes[2] = periodic_between([0, 39], [0, 33], 5, 0..1, Some(1));
    assert!(plan.check_validity());
    assert!(!plan.check_node_fits(&[[1, 1]], 2));
}

#[test]
fn a_direct_solve_ends_where_its_steps_leave_it() {
    let input = AABB::new([[0, 20], [10, 30]]);
    let slopes = [[1, 2], [3, 0]];
    let sloped_sides = [[1, 1], [1, 1]];
    assert!(direct_fits(&input, &AABB::new([[2, 16], [16, 30]]), &sloped_sides, &slopes, 2));
    assert!(!direct_fits(&input, &AABB::new([[2, 16], [16, 29]]), &sloped_sides, &slopes, 2));
    assert!(direct_fits(&input, &input, &sloped_sides, &slopes, 0));
    // The box would vanish.
    assert!(!direct_fits(&input, &AABB::new([[7, -1], [31, 30]]), &sloped_sides, &slopes, 7));
    // A face would move outward.
    assert!(!direct_fits(&input, &AABB::new([[-1, 20], [10, 30]]), &[[1, 0], [0, 0]], &[[-1, 0], [0, 0]], 1));
}
