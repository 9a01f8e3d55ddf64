use autoclicker::engine::zigzag::{generate_cycle_points, scan_fits};
use autoclicker::engine::ScanParams;

fn params(sx: i32, sy: i32, ex: i32, ey: i32, xs: i32, ys: i32) -> ScanParams {
    ScanParams {
        start_x: sx,
        start_y: sy,
        end_x: ex,
        end_y: ey,
        x_shift_pixels: xs,
        y_step_pixels: ys,
        total_time_nanos: 1_000_000_000,
    }
}

#[test]
fn test_generate_cycle_points() {
    let params = ScanParams {
        start_x: 0,
        start_y: 0,
        end_x: 10,
        end_y: 10,
        x_shift_pixels: 5,
        y_step_pixels: 5,
        total_time_nanos: 1_000_000_000,
    };

    let points = generate_cycle_points(&params);
    assert_eq!(
        points,
        vec![
            (0, 0),
            (0, 5),
            (0, 10), // col 0: down
            (5, 10),
            (5, 5),
            (5, 0), // col 1: up
            (10, 0),
            (10, 5),
            (10, 10), // col 2: down
        ]
    );
}

#[test]
fn test_generate_cycle_points_not_exact_multiple() {
    let params = ScanParams {
        start_x: 0,
        start_y: 0,
        end_x: 12,
        end_y: 12,
        x_shift_pixels: 5,
        y_step_pixels: 5,
        total_time_nanos: 1_000_000_000,
    };

    let points = generate_cycle_points(&params);
    let x_cols: Vec<_> = points
        .iter()
        .map(|(x, _)| *x)
        .collect::<std::collections::HashSet<_>>()
        .into_iter()
        .collect();
    let mut x_cols = x_cols;
    x_cols.sort();
    assert_eq!(x_cols, vec![0, 5, 10, 12]);

    let y_rows: Vec<_> = points
        .iter()
        .map(|(_, y)| *y)
        .collect::<std::collections::HashSet<_>>()
        .into_iter()
        .collect();
    let mut y_rows = y_rows;
    y_rows.sort();
    assert_eq!(y_rows, vec![0, 5, 10, 12]);
}

#[test]
fn corners_in_any_order_give_the_same_path() {
    let a = generate_cycle_points(&params(0, 0, 10, 10, 5, 5));
    let b = generate_cycle_points(&params(10, 10, 0, 0, 5, 5));
    let c = generate_cycle_points(&params(10, 0, 0, 10, 5, 5));
    assert_eq!(a, b);
    assert_eq!(a, c);
}

#[test]
fn non_positive_steps_count_as_one() {
    let a = generate_cycle_points(&params(0, 0, 2, 1, 0, -3));
    assert_eq!(a, vec![(0, 0), (0, 1), (1, 1), (1, 0), (2, 0), (2, 1)]);
}

#[test]
fn single_point_area() {
    assert_eq!(generate_cycle_points(&params(7, -3, 7, -3, 20, 20)), vec![(7, -3)]);
}

#[test]
fn step_larger_than_area() {
    assert_eq!(generate_cycle_points(&params(0, 0, 3, 3, 100, 100)), vec![(0, 0), (0, 3), (3, 3), (3, 0)]);
}

#[test]
fn path_covers_area_and_stays_on_row_between_columns() {
    let p = params(-7, 3, 23, 40, 4, 6);
    let pts = generate_cycle_points(&p);
    let cols = [-7, -3, 1, 5, 9, 13, 17, 21, 23];
    let rows = [3, 9, 15, 21, 27, 33, 39, 40];
    assert_eq!(pts.len(), cols.len() * rows.len());
    assert_eq!(pts[0], (-7, 3));
    for (k, &(x, y)) in pts.iter().enumerate() {
        assert!((-7..=23).contains(&x) && (3..=40).contains(&y));
        let i = k / rows.len();
        let j = k % rows.len();
        let row = if i % 2 == 0 { rows[j] } else { rows[rows.len() - 1 - j] };
        assert_eq!((x, y), (cols[i], row));
    }
    for i in 0..cols.len() - 1 {
        assert_eq!(pts[i * rows.len() + rows.len() - 1].1, pts[(i + 1) * rows.len()].1);
    }
}

#[test]
fn scan_fits_detects_overflow() {
    assert!(scan_fits(&params(0, 0, 10, 10, 5, 5)));
    assert!(scan_fits(&params(i32::MAX - 10, 0, i32::MAX - 10, 0, 10, 1)));
    assert!(!scan_fits(&params(i32::MAX - 10, 0, i32::MAX, 0, 5, 1)));
    assert!(!scan_fits(&params(0, 0, 0, i32::MAX, 1, 1)));
    assert!(scan_fits(&params(i32::MIN, 0, -1, 0, i32::MAX, 1)));
    assert!(!scan_fits(&params(i32::MIN, 0, i32::MAX - 1, 0, i32::MAX, 1)));
    assert!(!scan_fits(&params(i32::MIN, i32::MIN, i32::MAX, i32::MIN, i32::MAX, 1)));
}

#[test]
fn default_params() {
    let p = ScanParams::default();
    assert_eq!((p.start_x, p.start_y, p.end_x, p.end_y), (100, 100, 200, 200));
    assert_eq!((p.x_shift_pixels, p.y_step_pixels, p.total_time_nanos), (20, 20, 5_000_000_000));
    assert_eq!(generate_cycle_points(&p).len(), 36);
}
