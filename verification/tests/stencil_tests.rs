use nhls::domain::{BCCheck, ConstantCheck, PeriodicCheck, SliceDomain};
use nhls::error::SolveError;
use nhls::par_stencil::{apply, apply_within, gather_args, gather_args_within};
use nhls::solver::{trapezoid_apply, trapezoid_apply_within};
use nhls::stencil::Stencil;
use nhls::util::{Coord, AABB};

fn close(a: f64, b: f64) -> bool {
    (a - b).abs() < 1e-12
}

#[test]
fn par_stencil_test_1d_simple() {
    let stencil = Stencil::new([[0]], |args: &[f64; 1]| args[0]);
    let bound = AABB::new([[0, 99]]);
    let n_r = bound.buffer_size();
    {
        let mut input_buffer = vec![1.0; n_r];
        let input_domain = SliceDomain::new(bound, &mut input_buffer).ok().unwrap();

        let mut output_buffer = vec![2.0; n_r];
        let mut output_domain = SliceDomain::new(bound, &mut output_buffer).ok().unwrap();

        let bc = PeriodicCheck::new(&input_domain);
        assert_eq!(apply(&bc, &stencil, &input_domain, &mut output_domain), Ok(()));
        for x in &output_buffer {
            assert!(close(*x, 1.0));
        }
    }

    {
        let mut input_buffer = vec![2.0; n_r];
        let input_domain = SliceDomain::new(bound, &mut input_buffer).ok().unwrap();

        let mut output_buffer = vec![1.0; n_r];
        let mut output_domain = SliceDomain::new(bound, &mut output_buffer).ok().unwrap();

        let bc = PeriodicCheck::new(&input_domain);
        assert_eq!(apply(&bc, &stencil, &input_domain, &mut output_domain), Ok(()));
        for x in &output_buffer {
            assert!(close(*x, 2.0));
        }
    }
}

// Fail if the boundary is hit
struct ErrorCheck {
    bounds: AABB<1>,
}

impl BCCheck<f64, 1> for ErrorCheck {
    fn check(&self, c: &Coord<1>) -> Option<f64> {
        assert!(self.bounds.contains(c));
        None
    }
}

#[test]
fn par_stencil_trapezoid_test_1d_simple() {
    let stencil = Stencil::new([[-1], [0], [1]], |args: &[f64; 3]| {
        let mut r = 0.0;
        for a in args {
            r += a / 3.0;
        }
        r
    });

    let input_bound = AABB::new([[0, 10]]);
    let output_bound = AABB::new([[1, 9]]);

    let mut input_buffer = vec![1.0; input_bound.buffer_size()];
    let mut output_buffer = vec![0.0; output_bound.buffer_size()];

    let input_domain = SliceDomain::new(input_bound, &mut input_buffer).ok().unwrap();
    let mut output_domain = SliceDomain::new(output_bound, &mut output_buffer).ok().unwrap();

    let bc = ErrorCheck { bounds: input_bound };

    assert_eq!(apply(&bc, &stencil, &input_domain, &mut output_domain), Ok(()));

    for i in output_buffer {
        assert!(close(i, 1.0));
    }
}

#[test]
fn simple_1d_trapezoid_test() {
    let steps = 5;
    let stencil = Stencil::new([[-1], [0], [1]], |args: &[f64; 3]| {
        let mut r = 0.0;
        for a in args {
            r += a / 3.0;
        }
        r
    });
    let stencil_slopes = stencil.slopes();
    assert_eq!(stencil_slopes, [[1, 1]]);

    {
        let sloped_sides = [[1, 1]];
        let input_bound = AABB::new([[10, 40]]);
        let mut input_buffer = vec![1.0; input_bound.buffer_size()];
        let mut output_buffer = vec![1.0; input_bound.buffer_size()];
        let mut input_domain = SliceDomain::new(input_bound, &mut input_buffer).ok().unwrap();
        let mut output_domain = SliceDomain::new(input_bound, &mut output_buffer).ok().unwrap();
        let bc = ConstantCheck::new(1.0, input_bound);
        assert_eq!(
            trapezoid_apply(
                &bc,
                &stencil,
                &mut input_domain,
                &mut output_domain,
                &sloped_sides,
                &stencil_slopes,
                steps,
            ),
            Ok(())
        );
        assert_eq!(*output_domain.aabb(), AABB::new([[15, 35]]));
        for i in 0..21 {
            assert!(close(output_domain.buffer()[i], 1.0));
        }
    }
}

#[test]
fn identity_stencil_keeps_an_empty_grid_empty() {
    let stencil = Stencil::new([[0]], |args: &[f64; 1]| 1.0 * args[0]);
    let bound = AABB::new([[0, 99]]);
    let mut first = vec![0.0; 100];
    let mut second = vec![5.0; 100];
    let mut input = SliceDomain::new(bound, &mut first).ok().unwrap();
    let mut output = SliceDomain::new(bound, &mut second).ok().unwrap();
    let bc = ConstantCheck::new(1.0, bound);
    let fixed = [[0, 0]];
    assert_eq!(
        trapezoid_apply(&bc, &stencil, &mut input, &mut output, &fixed, &stencil.slopes(), 10),
        Ok(())
    );
    assert_eq!(*output.aabb(), bound);
    for i in 0..100 {
        assert_eq!(output.buffer()[i], 0.0);
    }
}

#[test]
fn averaging_keeps_a_field_of_ones_with_ones_outside() {
    let third = 1.0 / 3.0;
    let stencil = Stencil::new([[-1], [0], [1]], move |args: &[f64; 3]| {
        third * args[0] + third * args[1] + third * args[2]
    });
    let bound = AABB::new([[0, 99]]);
    let mut first = vec![1.0; 100];
    let mut second = vec![0.0; 100];
    let mut input = SliceDomain::new(bound, &mut first).ok().unwrap();
    let mut output = SliceDomain::new(bound, &mut second).ok().unwrap();
    let bc = ConstantCheck::new(1.0, bound);
    let fixed = [[0, 0]];
    assert_eq!(
        trapezoid_apply(&bc, &stencil, &mut input, &mut output, &fixed, &stencil.slopes(), 16),
        Ok(())
    );
    assert_eq!(*output.aabb(), bound);
    for i in 0..100 {
        assert!(close(output.buffer()[i], 1.0));
    }
}

#[test]
fn trapezoid_takes_turns_between_the_two_buffers() {
    let stencil = Stencil::new([[-1], [1]], |args: &[i64; 2]| args[0] + args[1]);
    let bound = AABB::new([[0, 6]]);
    let mut first: Vec<i64> = vec![1, 2, 3, 4, 5, 6, 7];
    let mut second: Vec<i64> = vec![0; 7];
    {
        let mut input = SliceDomain::new(bound, &mut first).ok().unwrap();
        let mut output = SliceDomain::new(bound, &mut second).ok().unwrap();
        let bc = ConstantCheck::new(0i64, bound);
        assert_eq!(
            trapezoid_apply(&bc, &stencil, &mut input, &mut output, &[[1, 1]], &[[1, 1]], 2),
            Ok(())
        );
        assert_eq!(*output.aabb(), AABB::new([[2, 4]]));
        assert_eq!(*input.aabb(), AABB::new([[1, 5]]));
        assert_eq!(&output.buffer()[..3], &[12, 16, 20]);
        assert_eq!(&input.buffer()[..5], &[4, 6, 8, 10, 12]);
    }
    assert_eq!(&first[..3], &[12, 16, 20]);
    assert_eq!(&second[..5], &[4, 6, 8, 10, 12]);
}

#[test]
fn trapezoid_without_steps_hands_the_field_over() {
    let stencil = Stencil::new([[0]], |args: &[i64; 1]| args[0] + 1);
    let bound = AABB::new([[0, 2]]);
    let mut first: Vec<i64> = vec![1, 2, 3];
    let mut second: Vec<i64> = vec![0; 3];
    let mut input = SliceDomain::new(bound, &mut first).ok().unwrap();
    let mut output = SliceDomain::new(bound, &mut second).ok().unwrap();
    let bc = ConstantCheck::new(0i64, bound);
    assert_eq!(
        trapezoid_apply(&bc, &stencil, &mut input, &mut output, &[[1, 1]], &[[0, 0]], 0),
        Ok(())
    );
    assert_eq!(output.buffer(), &[1, 2, 3]);
}

// A boundary condition that knows nothing.
struct Silent;

impl BCCheck<i64, 2> for Silent {
    fn check(&self, _c: &Coord<2>) -> Option<i64> {
        None
    }
}

#[test]
fn a_missing_boundary_value_stops_the_solve() {
    let stencil = Stencil::new([[0, -1], [0, 1]], |args: &[i64; 2]| args[0] + args[1]);
    let bound = AABB::new([[0, 1], [0, 2]]);
    let mut first: Vec<i64> = vec![1, 2, 3, 4, 5, 6];
    let mut second: Vec<i64> = vec![0; 6];
    let input = SliceDomain::new(bound, &mut first).ok().unwrap();
    let mut output = SliceDomain::new(bound, &mut second).ok().unwrap();
    assert_eq!(gather_args(&stencil, &Silent, &input, &[1, 1]), Ok([4, 6]));
    assert_eq!(gather_args(&stencil, &Silent, &input, &[1, 2]), Err(SolveError::OracleMissing));
    assert_eq!(apply(&Silent, &stencil, &input, &mut output), Err(SolveError::OracleMissing));

    let mut inner_buffer: Vec<i64> = vec![0; 2];
    let mut inner = SliceDomain::new(AABB::new([[0, 1], [1, 1]]), &mut inner_buffer).ok().unwrap();
    assert_eq!(apply(&Silent, &stencil, &input, &mut inner), Ok(()));
    assert_eq!(inner.buffer(), &[4, 10]);
}

#[test]
fn gather_reads_the_field_inside_and_the_boundary_outside() {
    let stencil = Stencil::new([[-1, 0], [0, 0], [1, 0], [0, 2]], |args: &[i64; 4]| args[0]);
    let bound = AABB::new([[0, 1], [0, 2]]);
    let mut buffer: Vec<i64> = vec![1, 2, 3, 4, 5, 6];
    let input = SliceDomain::new(bound, &mut buffer).ok().unwrap();
    let bc = ConstantCheck::new(-7i64, bound);
    assert_eq!(gather_args(&stencil, &bc, &input, &[0, 0]), Ok([-7, 1, 4, 3]));
    assert_eq!(gather_args(&stencil, &bc, &input, &[1, 1]), Ok([2, 5, -7, -7]));
}

#[test]
fn gather_within_reads_the_boundary_outside_the_clip() {
    let stencil = Stencil::new([[-1], [0], [1]], |args: &[i64; 3]| args[0] + args[1] + args[2]);
    let bound = AABB::new([[0, 5]]);
    let clip = AABB::new([[2, 9]]);
    let mut buffer: Vec<i64> = vec![10, 11, 12, 13, 14, 15];
    let input = SliceDomain::new(bound, &mut buffer).ok().unwrap();
    let bc = ConstantCheck::new(-1i64, clip);
    assert_eq!(gather_args_within(&stencil, &bc, &input, &clip, &[2]), Ok([-1, 12, 13]));
    assert_eq!(gather_args_within(&stencil, &bc, &input, &clip, &[1]), Ok([-1, -1, 12]));
    assert_eq!(gather_args(&stencil, &bc, &input, &[1]), Ok([10, 11, 12]));
    // Inside the clip but outside the field: the boundary condition has nothing.
    assert_eq!(
        gather_args_within(&stencil, &bc, &input, &clip, &[5]),
        Err(SolveError::OracleMissing)
    );

    let mut out_buffer: Vec<i64> = vec![0; 3];
    let mut output = SliceDomain::new(AABB::new([[1, 3]]), &mut out_buffer).ok().unwrap();
    assert_eq!(apply_within(&bc, &stencil, &input, &clip, &mut output), Ok(()));
    assert_eq!(output.buffer(), &[10, 24, 39]);
}

#[test]
fn trapezoid_within_a_clip_keeps_the_clipped_face() {
    let stencil = Stencil::new([[-1], [0], [1]], |args: &[i64; 3]| args[0] + args[1] + args[2]);
    let bound = AABB::new([[0, 5]]);
    let clip = AABB::new([[2, 5]]);
    let mut first: Vec<i64> = vec![100, 100, 1, 2, 3, 4];
    let mut second: Vec<i64> = vec![0; 6];
    let mut input = SliceDomain::new(bound, &mut first).ok().unwrap();
    let mut output = SliceDomain::new(bound, &mut second).ok().unwrap();
    let bc = ConstantCheck::new(0i64, clip);
    assert_eq!(
        trapezoid_apply_within(
            &bc,
            &stencil,
            &mut input,
            &mut output,
            &clip,
            &[[0, 1]],
            &[[1, 1]],
            2,
        ),
        Ok(())
    );
    assert_eq!(*output.aabb(), AABB::new([[0, 3]]));
    // After one step: [0, 0 + 0 + 1, 0 + 1 + 2, 1 + 2 + 3, 2 + 3 + 4] on [0, 4].
    // The cells at 0 and 1 lie outside the clip, so the second step reads
    // the boundary value there.
    assert_eq!(&output.buffer()[..4], &[0, 3, 9, 18]);
}

#[test]
fn slopes_are_the_reach_of_the_offsets() {
    let stencil = Stencil::new(
        [[-1, -2, 0], [-2, 0, 0], [0, 0, 0], [3, 0, 0], [4, 0, 1], [1, 0, 3]],
        |args: &[f64; 6]| args[0],
    );
    assert_eq!(stencil.slopes(), [[2, 4], [2, 0], [0, 3]]);
    assert_eq!(stencil.offsets()[4], [4, 0, 1]);
    assert!(close(stencil.apply(&[0.5, 1.0, 2.0, 3.0, 4.0, 5.0]), 0.5));
    let inward = Stencil::new([[1], [2]], |args: &[f64; 2]| args[1]);
    assert_eq!(inward.slopes(), [[0, 2]]);
}

#[test]
fn periodic_check_wraps_into_the_field() {
    let bound = AABB::new([[0, 3], [0, 2]]);
    let mut buffer: Vec<i64> = (0..12).collect();
    let domain = SliceDomain::new(bound, &mut buffer).ok().unwrap();
    let bc = PeriodicCheck::new(&domain);
    assert_eq!(bc.check(&[0, 0]), None);
    assert_eq!(bc.check(&[3, 2]), None);
    assert_eq!(bc.check(&[-1, 0]), Some(9));
    assert_eq!(bc.check(&[4, 1]), Some(1));
    assert_eq!(bc.check(&[2, 3]), Some(6));
    assert_eq!(bc.check(&[-1, -1]), Some(11));
    assert_eq!(bc.check(&[8, 0]), None);
    assert_eq!(bc.check(&[0, i32::MAX]), None);
}

#[test]
fn a_periodic_field_shifts_around() {
    let stencil = Stencil::new([[-1]], |args: &[i64; 1]| args[0]);
    let bound = AABB::new([[0, 4]]);
    let mut first: Vec<i64> = vec![1, 2, 3, 4, 5];
    let mut second: Vec<i64> = vec![0; 5];
    let input = SliceDomain::new(bound, &mut first).ok().unwrap();
    let mut output = SliceDomain::new(bound, &mut second).ok().unwrap();
    let bc = PeriodicCheck::new(&input);
    assert_eq!(apply(&bc, &stencil, &input, &mut output), Ok(()));
    assert_eq!(output.buffer(), &[5, 1, 2, 3, 4]);
}

#[test]
fn a_domain_needs_a_cell_for_every_point() {
    let mut buffer = vec![0u8; 5];
    assert_eq!(
        SliceDomain::new(AABB::new([[0, 5]]), &mut buffer).err(),
        Some(SolveError::DomainTooSmall)
    );
    assert!(SliceDomain::new(AABB::new([[0, 4]]), &mut buffer).is_ok());
    assert!(SliceDomain::new(AABB::new([[0, 1], [0, 1]]), &mut buffer).is_ok());
}

#[test]
fn a_domain_reads_and_writes_by_coordinate() {
    let mut buffer: Vec<i64> = vec![0; 8];
    {
        let mut domain = SliceDomain::new(AABB::new([[1, 2], [5, 7]]), &mut buffer).ok().unwrap();
        domain.set(&[1, 5], 10);
        domain.set(&[2, 6], 20);
        domain.set_cell(5, 30);
        assert_eq!(domain.view(&[1, 5]), 10);
        assert_eq!(domain.view(&[2, 6]), 20);
        assert_eq!(domain.view(&[2, 7]), 30);
        assert_eq!(domain.buffer(), &[10, 0, 0, 0, 20, 30, 0, 0]);
        domain.set_aabb(AABB::new([[0, 3], [0, 1]]));
        assert_eq!(domain.aabb(), &AABB::new([[0, 3], [0, 1]]));
        assert_eq!(domain.view(&[2, 0]), 20);
        domain.buffer_mut()[7] = 70;
        assert_eq!(domain.view(&[3, 1]), 70);
    }
    assert_eq!(buffer, vec![10, 0, 0, 0, 20, 30, 0, 70]);
}

#[test]
fn domains_copy_by_coordinate() {
    let mut large_buffer: Vec<i64> = (0..12).collect();
    let mut small_buffer: Vec<i64> = vec![-1; 6];
    let mut large = SliceDomain::new(AABB::new([[0, 2], [0, 3]]), &mut large_buffer).ok().unwrap();
    let mut small = SliceDomain::new(AABB::new([[1, 2], [1, 2]]), &mut small_buffer).ok().unwrap();
    small.from_superset(&large);
    assert_eq!(small.buffer(), &[5, 6, 9, 10, -1, -1]);

    small.set(&[1, 1], 50);
    small.set(&[2, 2], 100);
    large.set_subdomain(&small);
    assert_eq!(large.buffer(), &[0, 1, 2, 3, 4, 50, 6, 7, 8, 9, 100, 11]);
}

#[test]
fn apply_leaves_the_cells_behind_the_box_alone() {
    let stencil = Stencil::new([[-1], [1]], |args: &[i64; 2]| args[0] + args[1]);
    let bound = AABB::new([[0, 3]]);
    let mut first: Vec<i64> = vec![1, 2, 3, 4];
    let mut second: Vec<i64> = vec![70, 71, 72, 73, 74, 75];
    let input = SliceDomain::new(bound, &mut first).ok().unwrap();
    let mut output = SliceDomain::new(AABB::new([[1, 2]]), &mut second).ok().unwrap();
    let bc = ConstantCheck::new(0i64, bound);
    assert_eq!(apply(&bc, &stencil, &input, &mut output), Ok(()));
    assert_eq!(output.buffer(), &[4, 6, 72, 73, 74, 75]);
}

#[test]
fn a_solve_that_lacks_a_value_at_a_later_step_stops_there() {
    // The lower face stays, so every step reads below the box, where the
    // boundary condition is silent; without steps nothing is read.
    let stencil = Stencil::new([[0, -1], [0, 1]], |args: &[i64; 2]| args[0] + args[1]);
    let bound = AABB::new([[0, 1], [0, 5]]);
    let mut first: Vec<i64> = vec![1; 12];
    let mut second: Vec<i64> = vec![0; 12];
    {
        let mut input = SliceDomain::new(bound, &mut first).ok().unwrap();
        let mut output = SliceDomain::new(bound, &mut second).ok().unwrap();
        assert_eq!(
            trapezoid_apply(
                &Silent,
                &stencil,
                &mut input,
                &mut output,
                &[[0, 0], [0, 1]],
                &[[0, 0], [1, 1]],
                2
            ),
            Err(SolveError::OracleMissing)
        );
    }
    {
        let mut input = SliceDomain::new(bound, &mut first).ok().unwrap();
        let mut output = SliceDomain::new(bound, &mut second).ok().unwrap();
        assert_eq!(
            trapezoid_apply(
                &Silent,
                &stencil,
                &mut input,
                &mut output,
                &[[0, 0], [0, 1]],
                &[[0, 0], [1, 1]],
                0
            ),
            Ok(())
        );
    }
    // With both faces sloped every read stays in the field.
    let mut input = SliceDomain::new(bound, &mut first).ok().unwrap();
    let mut output = SliceDomain::new(bound, &mut second).ok().unwrap();
    assert_eq!(
        trapezoid_apply(
            &Silent,
            &stencil,
            &mut input,
            &mut output,
            &[[0, 0], [1, 1]],
            &[[0, 0], [1, 1]],
            2
        ),
        Ok(())
    );
    assert_eq!(*output.aabb(), AABB::new([[0, 1], [2, 3]]));
    assert_eq!(output.buffer()[..4], [4, 4, 4, 4]);
}
