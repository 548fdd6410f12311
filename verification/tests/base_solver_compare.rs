use nhls::domain::{PeriodicCheck, SliceDomain};
use nhls::par_stencil::apply;
use nhls::solver::{FFTPlan, PlanType};
use nhls::stencil::Stencil;
use nhls::util::AABB;

use fftw::array::AlignedVec;
use fftw::plan::{C2RPlan, R2CPlan};
use fftw::types::c64;

// Apply a stencil with the given weights `steps` times to a periodic field,
// as a product in frequency space.
fn periodic_fft_apply<const NEIGHBORHOOD_SIZE: usize>(
    bound: AABB<1>,
    offsets: [[i32; 1]; NEIGHBORHOOD_SIZE],
    weights: [f64; NEIGHBORHOOD_SIZE],
    input: &[f64],
    steps: usize,
) -> Vec<f64> {
    let n = bound.buffer_size();
    let n_c = bound.complex_buffer_size();
    let mut plan = FFTPlan::new(bound, PlanType::Estimate).ok().unwrap();

    let mut kernel = AlignedVec::<f64>::new(n);
    for (offset, weight) in offsets.iter().zip(weights.iter()) {
        let at = (-(offset[0] as i64)).rem_euclid(n as i64) as usize;
        kernel[at] += *weight;
    }
    let mut kernel_spectrum = AlignedVec::<c64>::new(n_c);
    let forward: &mut fftw::plan::R2CPlan64 = &mut plan.forward_plan.plan;
    forward.r2c(&mut kernel, &mut kernel_spectrum).unwrap();

    let mut field = AlignedVec::<f64>::new(n);
    field.copy_from_slice(&input[..n]);
    let mut spectrum = AlignedVec::<c64>::new(n_c);
    forward.r2c(&mut field, &mut spectrum).unwrap();
    for i in 0..n_c {
        for _ in 0..steps {
            spectrum[i] *= kernel_spectrum[i];
        }
    }
    let mut result = AlignedVec::<f64>::new(n);
    let backward: &mut fftw::plan::C2RPlan64 = &mut plan.backward_plan.plan;
    backward.c2r(&mut spectrum, &mut result).unwrap();
    result.iter().map(|x| x / n as f64).collect()
}

// Apply a stencil `steps` times to a periodic field, cell by cell.
fn direct_periodic_apply<Operation, const NEIGHBORHOOD_SIZE: usize>(
    stencil: &Stencil<Operation, 1, NEIGHBORHOOD_SIZE>,
    bound: AABB<1>,
    input: &mut [f64],
    output: &mut [f64],
    steps: usize,
) where
    Operation: Fn(&[f64; NEIGHBORHOOD_SIZE]) -> f64,
{
    let mut input_domain = SliceDomain::new(bound, input).ok().unwrap();
    let mut output_domain = SliceDomain::new(bound, output).ok().unwrap();
    for _ in 0..steps {
        {
            let bc = PeriodicCheck::new(&input_domain);
            assert_eq!(apply(&bc, stencil, &input_domain, &mut output_domain), Ok(()));
        }
        std::mem::swap(&mut input_domain, &mut output_domain);
    }
    std::mem::swap(&mut input_domain, &mut output_domain);
}

#[test]
fn thermal_1d_compare() {
    // Grid size
    let grid_bound = AABB::new([[0, 999]]);

    let n_steps = 16;

    // Step size t
    let dt: f64 = 1.0;

    // Step size x
    let dx: f64 = 1.0;

    // Heat transfer coefficient
    let k: f64 = 0.5;

    let stencil = Stencil::new([[-1], [0], [1]], |args: &[f64; 3]| {
        let left = args[0];
        let middle = args[1];
        let right = args[2];
        middle + (k * dt / (dx * dx)) * (left - 2.0 * middle + right)
    });

    // Create domains
    let buffer_size = grid_bound.buffer_size();
    let mut grid_input = vec![0.0; buffer_size];
    let mut grid_output = vec![0.0; buffer_size];

    // Fill in with IC values (use normal dist for spike in the middle)
    let n_f = buffer_size as f64;
    let sigma_sq: f64 = (n_f / 25.0) * (n_f / 25.0);
    for (i, cell) in grid_input.iter_mut().enumerate() {
        let world_coord = grid_bound.linear_to_coord(i);
        let x = (world_coord[0] as f64) - (n_f / 2.0);
        let exp = -x * x / (2.0 * sigma_sq);
        *cell = exp.exp();
    }

    let c = k * dt / (dx * dx);
    let fft_output = periodic_fft_apply(
        grid_bound,
        [[-1], [0], [1]],
        [c, 1.0 - 2.0 * c, c],
        &grid_input,
        n_steps,
    );

    direct_periodic_apply(&stencil, grid_bound, &mut grid_input, &mut grid_output, n_steps);

    for i in 0..buffer_size {
        assert!((fft_output[i] - grid_output[i]).abs() <= 0.001);
    }
}

#[test]
fn periodic_compare() {
    {
        let steps = 1;
        let bound = AABB::new([[0, 99]]);
        let stencil =
            Stencil::new([[-1], [-2], [0], [3], [4], [1]], |args: &[f64; 6]| {
                let c = 1.0 / 6.0;
                args.iter().map(|x| c * x).sum()
            });

        let n_r = bound.buffer_size();
        let mut input_a = vec![0.0; n_r];
        for i in 0..n_r {
            input_a[i] = i as f64;
        }
        let input_b = input_a.clone();

        let mut output_a = vec![0.0; n_r];
        direct_periodic_apply(&stencil, bound, &mut input_a, &mut output_a, steps);
        let output_b = periodic_fft_apply(
            bound,
            [[-1], [-2], [0], [3], [4], [1]],
            [1.0 / 6.0; 6],
            &input_b,
            steps,
        );

        for i in 0..n_r {
            println!(
                "n: {}, p: {}, d: {}",
                output_a[i],
                output_b[i],
                (output_a[i] - output_b[i]).abs()
            );
        }
        for i in 0..n_r {
            assert!((output_a[i] - output_b[i]).abs() <= 0.0000000000001);
        }
    }
}
