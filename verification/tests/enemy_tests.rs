use maze_escape::caster::FP;
use maze_escape::geom::isqrt;
use maze_escape::maze::from_rows;
use maze_escape::{Enemy, Maze};

fn build(rows: &[&str]) -> Maze {
    let cells: Vec<Vec<char>> = rows.iter().map(|r| r.chars().collect()).collect();
    from_rows(&cells).unwrap()
}

#[test]
fn new_enemy_stands_at_its_spawn_cell_center() {
    let e = Enemy::new((2, 1), 10, 0, 18 * FP);
    assert_eq!(e.pos_x, (2 * 10 + 5) * FP);
    assert_eq!(e.pos_y, (1 * 10 + 5) * FP);
    assert!(e.path.is_empty());
}

#[test]
fn enemy_in_attack_range_attacks_and_resets_to_spawn() {
    let m = build(&["+++++", "+   +", "+   +", "+   +", "+++++"]);
    let mut e = Enemy::new((1, 1), 10, 0, 18 * FP);
    // Drag the enemy next to the player before the update.
    e.pos_x = (3 * 10 + 5) * FP;
    e.pos_y = (3 * 10 + 5) * FP;
    let px = (3 * 10 + 5) * FP;
    let py = (3 * 10 + 5) * FP;
    let attacked = e.update(&m, 10, px, py, 16_667);
    assert!(attacked);
    assert_eq!(e.pos_x, (1 * 10 + 5) * FP);
    assert_eq!(e.pos_y, (1 * 10 + 5) * FP);
    assert_eq!(e.attack_cooldown, 1_000_000);
    assert!(e.path.is_empty());
}

#[test]
fn cooldown_blocks_an_immediate_second_attack() {
    let m = build(&["+++++", "+   +", "+   +", "+   +", "+++++"]);
    let mut e = Enemy::new((1, 1), 10, 0, 18 * FP);
    let px = (1 * 10 + 5) * FP;
    let py = (1 * 10 + 5) * FP;
    assert!(e.update(&m, 10, px, py, 16_667));
    // Player has moved onto the enemy's spawn; the cooldown holds.
    assert!(!e.update(&m, 10, px, py, 16_667));
}

#[test]
fn enemy_walks_toward_the_player() {
    let m = build(&["+++++++", "+     +", "+++++++"]);
    let mut e = Enemy::new((1, 1), 10, 0, 18 * FP);
    let px = (5 * 10 + 5) * FP;
    let py = (1 * 10 + 5) * FP;
    let x0 = e.pos_x;
    let attacked = e.update(&m, 10, px, py, 100_000);
    assert!(!attacked);
    assert!(e.pos_x > x0);
    assert_eq!(e.pos_y, (1 * 10 + 5) * FP);
    assert!(e.path.len() >= 2);
}

#[test]
fn integer_square_root_is_exact_on_squares_and_floors_otherwise() {
    assert_eq!(isqrt(0), 0);
    assert_eq!(isqrt(1), 1);
    assert_eq!(isqrt(15), 3);
    assert_eq!(isqrt(16), 4);
    assert_eq!(isqrt(1_000_000), 1_000);
    assert_eq!(isqrt(u64::MAX), 4_294_967_295);
}
