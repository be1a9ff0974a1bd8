use capglyph::raster::{bresenham, coordinate_in_range, COORD_LIMIT};
use capglyph::spread_spectrum::permutation;

#[test]
fn bresenham_shallow_line() {
    assert_eq!(bresenham(0, 0, 3, 1, 10, 10), vec![(0, 0), (1, 0), (2, 1), (3, 1)]);
}

#[test]
fn bresenham_reverse_direction() {
    assert_eq!(bresenham(3, 1, 0, 0, 10, 10), vec![(3, 1), (2, 1), (1, 0), (0, 0)]);
}

#[test]
fn bresenham_steep_and_diagonal() {
    assert_eq!(bresenham(0, 0, 1, 3, 10, 10), vec![(0, 0), (0, 1), (1, 2), (1, 3)]);
    assert_eq!(bresenham(2, 2, 5, 5, 10, 10), vec![(2, 2), (3, 3), (4, 4), (5, 5)]);
}

#[test]
fn bresenham_single_point_and_clipping() {
    assert_eq!(bresenham(5, 5, 5, 5, 10, 10), vec![(5, 5)]);
    assert_eq!(bresenham(-2, 0, 2, 0, 10, 10), vec![(0, 0), (1, 0), (2, 0)]);
    assert_eq!(bresenham(20, 20, 30, 20, 10, 10), Vec::<(i32, i32)>::new());
}

#[test]
fn bresenham_visits_every_column_of_long_line() {
    let pts = bresenham(0, 0, 99, 7, 200, 200);
    assert_eq!(pts.len(), 100);
    for (i, p) in pts.iter().enumerate() {
        assert_eq!(p.0, i as i32);
    }
    assert_eq!(pts[0], (0, 0));
    assert_eq!(*pts.last().unwrap(), (99, 7));
}

#[test]
fn coordinate_range_limits() {
    assert!(coordinate_in_range(0));
    assert!(coordinate_in_range(COORD_LIMIT));
    assert!(coordinate_in_range(-COORD_LIMIT));
    assert!(!coordinate_in_range(COORD_LIMIT + 1));
    assert!(!coordinate_in_range(i32::MIN));
}

#[test]
fn permutation_exact_values() {
    assert_eq!(permutation(5, 42), vec![1, 4, 3, 0, 2]);
    assert_eq!(permutation(8, 0), vec![0, 3, 2, 4, 7, 5, 6, 1]);
    assert_eq!(permutation(1, 7), vec![0]);
    assert_eq!(permutation(0, 7), Vec::<usize>::new());
}

#[test]
fn permutation_is_a_permutation() {
    for (len, seed) in [(10usize, 1u64), (100, 0xdead_beef), (257, u64::MAX)] {
        let mut p = permutation(len, seed);
        assert_eq!(p, permutation(len, seed));
        p.sort_unstable();
        assert_eq!(p, (0..len).collect::<Vec<_>>());
    }
}
