use nhls::util::indexing::{complex_buffer_size, coord_to_linear, linear_to_coord, real_buffer_size};
use nhls::util::{Coord, AABB};
use std::collections::HashSet;

#[test]
fn buffer_size_test() {
    {
        let a = AABB::new([[0, 5]]);
        let real_size = a.buffer_size();
        assert_eq!(real_size, 6);
        let complex_size = a.complex_buffer_size();
        assert_eq!(complex_size, (6 / 2) + 1);
    }

    {
        let dimensions = AABB::new([[0, 5], [0, 7], [0, 9]]);
        let real_size = dimensions.buffer_size();
        assert_eq!(real_size, 6 * 8 * 10);
        let complex_size = dimensions.complex_buffer_size();
        assert_eq!(complex_size, 6 * 8 * ((10 / 2) + 1));
    }

    {
        let dimensions = AABB::new([[1, 6], [1, 8], [1, 10]]);
        let real_size = dimensions.buffer_size();
        assert_eq!(real_size, 6 * 8 * 10);
        let complex_size = dimensions.complex_buffer_size();
        assert_eq!(complex_size, 6 * 8 * ((10 / 2) + 1));
    }
}

#[test]
fn coord_to_linear_in_box_test() {
    let bb = AABB::new([[0, 9], [0, 9], [0, 9]]);
    let lin_1 = bb.coord_to_linear(&[5, 5, 5]);
    let lin_2 = coord_to_linear(&[5, 5, 5], &[10, 10, 10]);
    assert_eq!(lin_1, lin_2);
}

#[test]
fn linear_to_coord_test() {
    {
        let bb = AABB::new([[2, 8]]);
        let c_1 = bb.linear_to_coord(5);
        assert_eq!(c_1, [7]);
    }

    {
        let a = AABB::new([[1, 9]]);
        assert_eq!(a.linear_to_coord(0), [1]);
    }
}

#[test]
fn in_box_comp_test() {
    {
        let bound = AABB::new([[0, 9]]);
        let c = [8];
        let li = bound.coord_to_linear(&c);
        assert_eq!(c, bound.linear_to_coord(li));
    }

    {
        let bound = AABB::new([[0, 9], [0, 9]]);
        let c = [9, 8];
        let li = bound.coord_to_linear(&c);
        assert_eq!(c, bound.linear_to_coord(li));
    }
}

#[test]
fn periodic_coord_test() {
    {
        let index = [0, 0];
        let bound = AABB::new([[0, 10], [0, 10]]);
        assert_eq!(bound.periodic_coord(&index), [0, 0]);
    }

    {
        let index = [10, 10];
        let bound = AABB::new([[0, 10], [0, 10]]);
        assert_eq!(bound.periodic_coord(&index), [10, 10]);
    }

    {
        let index = [-1, 0];
        let bound = AABB::new([[0, 10], [0, 10]]);
        assert_eq!(bound.periodic_coord(&index), [10, 0]);
    }

    {
        let index = [0, -1];
        let bound = AABB::new([[0, 10], [0, 10]]);
        assert_eq!(bound.periodic_coord(&index), [0, 10]);
    }

    {
        let index = [0, -1, -4, -19, 134];
        let bound = AABB::new([[0, 100], [0, 100], [0, 100], [0, 100], [0, 100]]);
        assert_eq!(bound.periodic_coord(&index), [0, 100, 97, 82, 33]);
    }
}

#[test]
fn contains_aabb_test() {
    {
        let a = AABB::new([[0, 9]]);
        let b = AABB::new([[0, 9]]);
        assert!(a.contains_aabb(&b));
    }
}

#[test]
fn check_validity_test() {
    {
        let a = AABB::new([[0, 9]]);
        assert!(a.check_validity());
    }

    {
        let a = AABB::new([[9, 0]]);
        assert!(!a.check_validity());
    }

    {
        let a = AABB::new([[0, 0]]);
        assert!(a.check_validity());
    }
}

// Decomposition plus center must equal the bounds exactly:
// every coordinate appears once.
fn check_decomp<const DIMENSION: usize>(bounds: &AABB<DIMENSION>, center: &AABB<DIMENSION>) {
    let mut coord_set: HashSet<Coord<DIMENSION>> = HashSet::new();
    coord_set.extend(center.coord_iter());

    let d = bounds.decomposition(center);
    for [b1, b2] in d {
        let mut pieces: Vec<Coord<DIMENSION>> = Vec::new();
        if b1.check_validity() {
            pieces.extend(b1.coord_iter());
        }
        if b2.check_validity() {
            pieces.extend(b2.coord_iter());
        }
        for c in pieces {
            assert!(!coord_set.contains(&c));
            coord_set.insert(c);
        }
    }

    let mut n = 0;
    for c in bounds.coord_iter() {
        n += 1;
        assert!(coord_set.contains(&c));
    }
    assert_eq!(n, coord_set.len());
}

#[test]
fn decomp_test() {
    {
        let outer = AABB::new([[0, 9]]);
        let center = AABB::new([[4, 6]]);
        check_decomp(&outer, &center);
    }

    {
        let outer = AABB::new([[0, 9], [0, 9]]);
        let center = AABB::new([[4, 6], [4, 6]]);
        check_decomp(&outer, &center);
    }

    {
        let outer = AABB::new([[2, 20], [5, 19], [40, 60]]);
        let center = AABB::new([[6, 14], [10, 13], [47, 53]]);
        check_decomp(&outer, &center);
    }
}

#[test]
fn decomposition_slabs_are_as_described() {
    let outer = AABB::new([[0, 9], [10, 19]]);
    let center = AABB::new([[4, 6], [12, 15]]);
    let d = outer.decomposition(&center);
    assert_eq!(d[0][0], AABB::new([[0, 3], [10, 19]]));
    assert_eq!(d[0][1], AABB::new([[7, 9], [10, 19]]));
    assert_eq!(d[1][0], AABB::new([[4, 6], [10, 11]]));
    assert_eq!(d[1][1], AABB::new([[4, 6], [16, 19]]));
}

#[test]
fn decomposition_with_center_on_a_face_leaves_an_empty_slab() {
    let outer = AABB::new([[0, 9]]);
    let center = AABB::new([[0, 6]]);
    let d = outer.decomposition(&center);
    assert_eq!(d[0][0], AABB::new([[0, -1]]));
    assert!(!d[0][0].check_validity());
    assert_eq!(d[0][1], AABB::new([[7, 9]]));
    check_decomp(&outer, &center);
}

#[test]
fn from_mm_builds_the_box_between_two_corners() {
    let a = AABB::from_mm([1, -2, 3], [4, 5, 6]);
    assert_eq!(a, AABB::new([[1, 4], [-2, 5], [3, 6]]));
    assert_eq!(a.min(), [1, -2, 3]);
    assert_eq!(a.max(), [4, 5, 6]);
    assert!(a.check_validity());
}

#[test]
fn exclusive_bounds_counts_both_corners() {
    let a = AABB::new([[0, 9], [-3, 3], [5, 5]]);
    assert_eq!(a.exclusive_bounds(), [10, 7, 1]);
}

#[test]
fn contains_is_inclusive_of_both_corners() {
    let a = AABB::new([[0, 9], [-3, 3]]);
    assert!(a.contains(&[0, -3]));
    assert!(a.contains(&[9, 3]));
    assert!(!a.contains(&[10, 0]));
    assert!(!a.contains(&[5, -4]));
}

#[test]
fn contains_aabb_rejects_a_box_that_sticks_out() {
    let a = AABB::new([[0, 9], [0, 9]]);
    assert!(a.contains_aabb(&AABB::new([[1, 8], [0, 9]])));
    assert!(!a.contains_aabb(&AABB::new([[1, 10], [0, 9]])));
    assert!(!a.contains_aabb(&AABB::new([[1, 8], [-1, 9]])));
}

#[test]
fn add_bounds_diff_moves_each_face() {
    let a = AABB::new([[0, 9], [10, 19]]);
    assert_eq!(a.add_bounds_diff([[-1, 2], [3, -4]]), AABB::new([[-1, 11], [13, 15]]));
}

#[test]
fn linear_index_is_row_major_in_the_last_axis() {
    let a = AABB::new([[1, 2], [10, 12], [100, 103]]);
    assert_eq!(a.coord_to_linear(&[1, 10, 100]), 0);
    assert_eq!(a.coord_to_linear(&[1, 10, 101]), 1);
    assert_eq!(a.coord_to_linear(&[1, 11, 100]), 4);
    assert_eq!(a.coord_to_linear(&[2, 10, 100]), 12);
    assert_eq!(a.coord_to_linear(&[2, 12, 103]), 23);
    assert_eq!(a.linear_to_coord(23), [2, 12, 103]);
    assert_eq!(a.linear_to_coord(13), [2, 10, 101]);
}

#[test]
fn linear_index_round_trips_over_a_whole_box() {
    let a = AABB::new([[-2, 1], [3, 5], [0, 1]]);
    let n = a.buffer_size();
    assert_eq!(n, 24);
    for i in 0..n {
        let c = a.linear_to_coord(i);
        assert!(a.contains(&c));
        assert_eq!(a.coord_to_linear(&c), i);
    }
}

#[test]
fn coord_iter_lists_every_point_in_order() {
    let a = AABB::new([[0, 1], [5, 6]]);
    assert_eq!(a.coord_iter(), vec![[0, 5], [0, 6], [1, 5], [1, 6]]);
}

#[test]
fn indexing_on_sizes() {
    assert_eq!(real_buffer_size(&[3, 4, 5]), 60);
    assert_eq!(complex_buffer_size(&[3, 4, 5]), 3 * 4 * 3);
    assert_eq!(complex_buffer_size(&[7]), 4);
    assert_eq!(coord_to_linear(&[2, 3, 4], &[3, 4, 5]), 59);
    assert_eq!(linear_to_coord(59, &[3, 4, 5]), [2, 3, 4]);
    assert_eq!(linear_to_coord(7, &[3, 4, 5]), [0, 1, 2]);
}

#[test]
fn periodic_coord_wraps_a_point_one_box_away_into_a_box_at_the_origin() {
    let bound = AABB::new([[0, 4], [0, 9]]);
    for x in -5..10 {
        for y in -10..20 {
            let c = bound.periodic_coord(&[x, y]);
            assert!(bound.contains(&c));
            assert_eq!(c, [(x + 5) % 5, (y + 10) % 10]);
        }
    }
}

#[test]
fn periodic_coord_above_a_box_away_from_the_origin() {
    let bound = AABB::new([[5, 10]]);
    assert_eq!(bound.periodic_coord(&[11]), [5]);
    assert_eq!(bound.periodic_coord(&[16]), [10]);
    assert_eq!(bound.periodic_coord(&[7]), [7]);
}

#[test]
fn periodic_coord_below_a_box_away_from_the_origin_adds_the_upper_face() {
    let bound = AABB::new([[5, 10]]);
    assert_eq!(bound.periodic_coord(&[4]), [15]);
    assert_eq!(bound.periodic_coord(&[-1]), [10]);
    assert_eq!(bound.periodic_coord(&[-6]), [5]);
}

#[test]
fn decomposition_keeps_the_number_of_cells() {
    let cells = |aabb: &AABB<3>| if aabb.check_validity() { aabb.buffer_size() } else { 0 };
    let whole = AABB::new([[0, 9], [0, 19], [-3, 5]]);
    for inner in [
        AABB::new([[2, 9], [5, 10], [-3, 5]]),
        AABB::new([[0, 9], [0, 19], [-3, 5]]),
        AABB::new([[4, 4], [7, 7], [0, 0]]),
        AABB::new([[0, 3], [19, 19], [-3, -1]]),
    ] {
        let slabs = whole.decomposition(&inner);
        let mut total = inner.buffer_size();
        for d in 0..3 {
            total += cells(&slabs[d][0]) + cells(&slabs[d][1]);
        }
        assert_eq!(total, whole.buffer_size());
        assert_eq!(whole.buffer_size(), 10 * 20 * 9);
    }
}
