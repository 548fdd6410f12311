use nhls::error::SolveError;
use nhls::solver::fft_plan::{plan_or_error, plan_shape};
use nhls::solver::fft_plan::FFTPlanLibrary;
use nhls::solver::{FFTPlan, FFTPlanDescriptor, PlanType};
use nhls::util::AABB;

#[test]
fn plan_type_defaults_to_measure() {
    assert_eq!(PlanType::default(), PlanType::Measure);
}

#[test]
fn plan_type_maps_to_the_flag_of_the_same_name() {
    assert_eq!(PlanType::Measure.to_fftw3_flag().bits(), 0);
    assert_eq!(PlanType::Patient.to_fftw3_flag().bits(), 1 << 5);
    assert_eq!(PlanType::Estimate.to_fftw3_flag().bits(), 1 << 6);
    assert_eq!(PlanType::WisdomOnly.to_fftw3_flag().bits(), 1 << 21);
    assert_eq!(PlanType::Measure.to_fftw3_bits(), 0);
    assert_eq!(PlanType::Patient.to_fftw3_bits(), 32);
    assert_eq!(PlanType::Estimate.to_fftw3_bits(), 64);
    assert_eq!(PlanType::WisdomOnly.to_fftw3_bits(), 2097152);
    assert_eq!(PlanType::Measure.to_fftw3_flag().bits(), fftw::types::Flag::MEASURE.bits());
    assert_eq!(PlanType::Patient.to_fftw3_flag().bits(), fftw::types::Flag::PATIENT.bits());
    assert_eq!(PlanType::Estimate.to_fftw3_flag().bits(), fftw::types::Flag::ESTIMATE.bits());
    assert_eq!(
        PlanType::WisdomOnly.to_fftw3_flag().bits(),
        fftw::types::Flag::WISDOWMONLY.bits()
    );
}

#[test]
fn plan_shape_is_the_cell_count_per_axis() {
    assert_eq!(plan_shape(&AABB::new([[0, 9], [-3, 3], [5, 5]])), [10, 7, 1]);
}

#[test]
fn descriptor_keeps_its_box() {
    let bound = AABB::new([[0, 9], [0, 4]]);
    assert_eq!(FFTPlanDescriptor::new(bound).bound, bound);
}

#[test]
fn estimate_plans_transform_there_and_back() {
    let bound = AABB::new([[0, 7]]);
    let mut plan = match FFTPlan::new(bound, PlanType::Estimate) {
        Ok(plan) => plan,
        Err(e) => panic!("no plan: {:?}", e),
    };
    let n = bound.buffer_size();
    let mut field = fftw::array::AlignedVec::<f64>::new(n);
    let mut spectrum = fftw::array::AlignedVec::<fftw::types::c64>::new(bound.complex_buffer_size());
    let mut back = fftw::array::AlignedVec::<f64>::new(n);
    for i in 0..n {
        field[i] = (i * i) as f64;
    }
    let forward: &mut fftw::plan::R2CPlan64 = &mut plan.forward_plan.plan;
    assert!(fftw::plan::R2CPlan::r2c(forward, &mut field, &mut spectrum).is_ok());
    let backward: &mut fftw::plan::C2RPlan64 = &mut plan.backward_plan.plan;
    assert!(fftw::plan::C2RPlan::c2r(backward, &mut spectrum, &mut back).is_ok());
    for i in 0..n {
        assert!((back[i] / n as f64 - (i * i) as f64).abs() < 1e-9);
    }
}

#[test]
fn plans_for_a_grid_of_three_axes() {
    let bound = AABB::new([[0, 3], [10, 14], [-2, 3]]);
    assert!(FFTPlan::new(bound, PlanType::Estimate).is_ok());
}

#[test]
fn wisdom_only_without_wisdom_fails() {
    let bound = AABB::new([[0, 12], [0, 16]]);
    match FFTPlan::new(bound, PlanType::WisdomOnly) {
        Ok(_) => panic!("a plan was made without wisdom"),
        Err(e) => assert_eq!(e, SolveError::FFTPlanFailed),
    }
}

#[test]
fn a_library_error_becomes_plan_failed() {
    let failed: Result<u8, fftw::error::Error> = Err(fftw::error::Error::InvalidPlanError {});
    assert_eq!(plan_or_error(failed), Err(SolveError::FFTPlanFailed));
    let made: Result<u8, fftw::error::Error> = Ok(7);
    assert_eq!(plan_or_error(made), Ok(7));
}

#[test]
fn the_library_plans_each_box_once() {
    let mut library: FFTPlanLibrary<2> = FFTPlanLibrary::new(PlanType::Estimate);
    assert_eq!(library.plan_map.len(), 0);
    let first = AABB::new([[0, 7], [0, 3]]);
    let second = AABB::new([[1, 8], [0, 3]]);
    assert_eq!(library.find(&first), None);
    assert!(library.get_plan(first).is_ok());
    assert_eq!(library.plan_map.len(), 1);
    assert_eq!(library.find(&first), Some(0));
    assert!(library.get_plan(first).is_ok());
    assert_eq!(library.plan_map.len(), 1);
    assert!(library.get_plan(second).is_ok());
    assert_eq!(library.plan_map.len(), 2);
    assert_eq!(library.find(&second), Some(1));
    assert_eq!(library.plan_map[0].0, FFTPlanDescriptor::new(first));
    assert_eq!(library.plan_map[1].0, FFTPlanDescriptor::new(second));
    assert!(library.get_plan(first).is_ok());
    assert_eq!(library.plan_map.len(), 2);
}

#[test]
fn the_library_hands_out_a_plan_that_transforms() {
    let mut library: FFTPlanLibrary<1> = FFTPlanLibrary::new(PlanType::Estimate);
    let bound = AABB::new([[0, 15]]);
    let plan = match library.get_plan(bound) {
        Ok(plan) => plan,
        Err(e) => panic!("no plan: {:?}", e),
    };
    let mut field = fftw::array::AlignedVec::<f64>::new(16);
    let mut spectrum = fftw::array::AlignedVec::<fftw::types::c64>::new(9);
    for i in 0..16 {
        field[i] = 1.0;
    }
    let forward: &mut fftw::plan::R2CPlan64 = &mut plan.forward_plan.plan;
    assert!(fftw::plan::R2CPlan::r2c(forward, &mut field, &mut spectrum).is_ok());
    assert!((spectrum[0].re - 16.0).abs() < 1e-9);
    assert!(spectrum[1].norm() < 1e-9);
}

#[test]
fn the_library_keeps_nothing_where_planning_fails() {
    let mut library: FFTPlanLibrary<2> = FFTPlanLibrary::new(PlanType::WisdomOnly);
    let bound = AABB::new([[0, 10], [0, 12]]);
    match library.get_plan(bound) {
        Ok(_) => panic!("a plan was made without wisdom"),
        Err(e) => assert_eq!(e, SolveError::FFTPlanFailed),
    }
    assert_eq!(library.plan_map.len(), 0);
    assert_eq!(library.find(&bound), None);
}
