use nhls::solver::{trapezoid_input_region, trapezoid_output_region};
use nhls::util::AABB;

#[test]
fn input_region_test() {
    {
        let steps = 5;
        let output_box = AABB::new([[10, 20]]);
        let sloped_sides = [[1, 1]];
        let stencil_slopes = [[1, 1]];
        assert_eq!(
            trapezoid_input_region(steps, &output_box, &sloped_sides, &stencil_slopes).bounds,
            [[5, 25]]
        );
    }

    {
        let steps = 5;
        let output_box = AABB::new([[10, 20]]);
        let sloped_sides = [[0, 1]];
        let stencil_slopes = [[1, 1]];
        assert_eq!(
            trapezoid_input_region(steps, &output_box, &sloped_sides, &stencil_slopes).bounds,
            [[10, 25]]
        );
    }

    {
        let steps = 5;
        let output_box = AABB::new([[10, 20]]);
        let sloped_sides = [[1, 0]];
        let stencil_slopes = [[1, 1]];
        assert_eq!(
            trapezoid_input_region(steps, &output_box, &sloped_sides, &stencil_slopes).bounds,
            [[5, 20]]
        );
    }

    {
        let steps = 5;
        let output_box = AABB::new([[10, 20]]);
        let sloped_sides = [[1, 1]];
        let stencil_slopes = [[1, 2]];
        assert_eq!(
            trapezoid_input_region(steps, &output_box, &sloped_sides, &stencil_slopes).bounds,
            [[5, 30]]
        );
    }

    {
        let steps = 5;
        let output_box = AABB::new([[10, 20], [10, 20], [10, 20]]);
        let sloped_sides = [[1, 1], [1, 1], [1, 1]];
        let stencil_slopes = [[1, 2], [2, 1], [2, 3]];
        assert_eq!(
            trapezoid_input_region(steps, &output_box, &sloped_sides, &stencil_slopes).bounds,
            [[5, 30], [0, 25], [0, 35]]
        );
    }
}

#[test]
fn output_region_after_five_steps() {
    let steps = 5;
    let input_bound = AABB::new([[10, 40]]);
    let sloped_sides = [[1, 1]];
    let stencil_slopes = [[1, 1]];
    assert_eq!(
        trapezoid_output_region(steps, &input_bound, &sloped_sides, &stencil_slopes),
        AABB::new([[15, 35]])
    );
}

#[test]
fn output_region_undoes_input_region() {
    let steps = 7;
    let output_box = AABB::new([[10, 20], [-5, 5]]);
    let sloped_sides = [[1, 0], [1, 1]];
    let stencil_slopes = [[2, 3], [1, 4]];
    let input = trapezoid_input_region(steps, &output_box, &sloped_sides, &stencil_slopes);
    assert_eq!(input, AABB::new([[-4, 20], [-12, 33]]));
    assert_eq!(
        trapezoid_output_region(steps, &input, &sloped_sides, &stencil_slopes),
        output_box
    );
}

#[test]
fn output_region_step_by_step() {
    let sloped_sides = [[1, 1]];
    let stencil_slopes = [[1, 2]];
    let mut region = AABB::new([[0, 30]]);
    for _ in 0..4 {
        region = trapezoid_output_region(1, &region, &sloped_sides, &stencil_slopes);
    }
    assert_eq!(region, AABB::new([[4, 22]]));
    assert_eq!(
        trapezoid_output_region(4, &AABB::new([[0, 30]]), &sloped_sides, &stencil_slopes),
        region
    );
}
