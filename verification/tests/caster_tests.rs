use maze_escape::caster::{cast_ray, FP};
use maze_escape::maze::from_rows;
use maze_escape::Maze;

fn build(rows: &[&str]) -> Maze {
    let cells: Vec<Vec<char>> = rows.iter().map(|r| r.chars().collect()).collect();
    from_rows(&cells).unwrap()
}

#[test]
fn ray_down_open_corridor_reports_exact_corridor_length() {
    // A straight corridor of 5 open cells; the wall plane sits at
    // column 6, i.e. 45 world units east of the player at x = 15.
    let m = build(&["+++++++", "+     +", "+++++++"]);
    let bs = 10;
    let px = (1 * bs as i64 + bs as i64 / 2) * FP;
    let py = (1 * bs as i64 + bs as i64 / 2) * FP;
    let r = cast_ray(&m, px, py, FP, 0, bs);
    assert!(r.hit);
    assert_eq!(r.cell_i, 6);
    assert_eq!(r.cell_j, 1);
    assert_eq!(r.impact, '+');
    // distance = (cell_i * FP - px / bs) * bs = (6144 - 1536) * 10
    assert_eq!(r.distance, 46080);
    // 45 whole world units.
    assert_eq!(r.distance / FP, 45);
}

#[test]
fn ray_straight_at_near_wall_reports_exact_distance() {
    let m = build(&["+++++++", "+  +  +", "+++++++"]);
    let bs = 10;
    let px = (1 * bs as i64 + bs as i64 / 2) * FP;
    let py = (1 * bs as i64 + bs as i64 / 2) * FP;
    let r = cast_ray(&m, px, py, FP, 0, bs);
    assert!(r.hit);
    assert_eq!(r.cell_i, 3);
    // Wall plane at x = 30, player at x = 15: distance 15 units.
    assert_eq!(r.distance, (3 * FP - 1536) * 10);
    assert_eq!(r.distance / FP, 15);
}

#[test]
fn axis_aligned_south_ray_terminates_with_exact_distance() {
    let m = build(&["+++", "+ +", "+ +", "+ +", "+++"]);
    let bs = 8;
    let px = (1 * bs as i64 + bs as i64 / 2) * FP;
    let py = (1 * bs as i64 + bs as i64 / 2) * FP;
    let r = cast_ray(&m, px, py, 0, FP, bs);
    assert!(r.hit);
    assert_eq!(r.cell_j, 4);
    assert_eq!(r.cell_i, 1);
    // Wall plane at y = 32, player at y = 12: 20 units.
    assert_eq!(r.distance / FP, 20);
}

#[test]
fn diagonal_ray_strikes_a_wall_cell() {
    let m = build(&["+++++", "+   +", "+   +", "+   +", "+++++"]);
    let bs = 10;
    let px = (1 * bs as i64 + bs as i64 / 2) * FP;
    let py = (1 * bs as i64 + bs as i64 / 2) * FP;
    // Roughly 45 degrees: both components 724/1024.
    let r = cast_ray(&m, px, py, 724, 724, bs);
    assert!(r.hit);
    assert_eq!(m.read(r.cell_j, r.cell_i), r.impact);
    assert_ne!(r.impact, ' ');
    assert!(r.distance > 0);
}

#[test]
fn west_ray_hits_the_wall_behind() {
    let m = build(&["+++++++", "+     +", "+++++++"]);
    let bs = 10;
    let px = (3 * bs as i64 + bs as i64 / 2) * FP;
    let py = (1 * bs as i64 + bs as i64 / 2) * FP;
    let r = cast_ray(&m, px, py, -(FP), 0, bs);
    assert!(r.hit);
    assert_eq!(r.cell_i, 0);
    assert_eq!(r.side, 0);
}

#[test]
fn ray_leaving_the_grid_reports_the_synthetic_far_distance() {
    // An open gap in the east border lets the ray leave the grid.
    let m = build(&["+++++", "+    ", "+++++"]);
    let bs = 10;
    let px = (1 * bs as i64 + bs as i64 / 2) * FP;
    let py = (1 * bs as i64 + bs as i64 / 2) * FP;
    let r = cast_ray(&m, px, py, FP, 0, bs);
    assert!(!r.hit);
    assert_eq!(r.distance, (3 + 5) * 10 * FP);
}

#[test]
fn west_and_north_rays_report_exact_distances() {
    let m = build(&["+++++++", "+     +", "+     +", "+++++++"]);
    let bs = 10;
    let px = (4 * bs as i64 + bs as i64 / 2) * FP;
    let py = (2 * bs as i64 + bs as i64 / 2) * FP;
    let west = cast_ray(&m, px, py, -(FP), 0, bs);
    assert!(west.hit);
    assert_eq!(west.cell_i, 0);
    // Wall plane at x = 10, player at x = 45: 35 units.
    assert_eq!(west.distance / FP, 35);
    let north = cast_ray(&m, px, py, 0, -(FP), bs);
    assert!(north.hit);
    assert_eq!(north.cell_j, 0);
    // Wall plane at y = 10, player at y = 25: 15 units.
    assert_eq!(north.distance / FP, 15);
}

#[test]
fn impact_point_lies_on_the_ray() {
    let m = build(&["+++++++", "+     +", "+++++++"]);
    let bs = 10;
    let px = (1 * bs as i64 + bs as i64 / 2) * FP;
    let py = (1 * bs as i64 + bs as i64 / 2) * FP;
    let r = cast_ray(&m, px, py, FP, 0, bs);
    assert_eq!(r.hit_x, px + r.distance);
    assert_eq!(r.hit_y, py);
}
