use maze_escape::caster::FP;
use maze_escape::generator::generate_maze_text;
use maze_escape::maze::expand_maze;
use maze_escape::setup::{compute_block_size, setup_world};

#[test]
fn block_size_fits_the_window_with_a_floor_of_six() {
    assert_eq!(compute_block_size(1820, 980, 21, 25), 46);
    assert_eq!(compute_block_size(100, 100, 50, 50), 6);
}

#[test]
fn expanded_maze_replicates_each_cell() {
    let m = generate_maze_text(3, 2);
    let e = expand_maze(&m, 2);
    assert_eq!(e.rows, m.rows * 2);
    assert_eq!(e.cols, m.cols * 2);
    for y in 0..e.rows {
        for x in 0..e.cols {
            assert_eq!(e.read(y, x), m.read(y / 2, x / 2));
        }
    }
}

#[test]
fn setup_builds_a_playable_world() {
    let raw = generate_maze_text(4, 3);
    let maze = expand_maze(&raw, 2);
    let bs = compute_block_size(1820, 980, maze.rows, maze.cols);
    let w = setup_world(maze, bs);
    assert_eq!(w.block_size, bs);
    assert_eq!(w.enemies.len(), 2);
    assert_eq!(w.keys.len(), 1);
    assert_eq!(w.bins.len(), 1);
    assert!(w.medkits.len() <= 6);
    assert!(!w.goal_unlocked);
    assert!(!w.player.has_key);
    assert_eq!(w.player.health, 100);
    // The goal sits in the far interior corner, ringed by doors where
    // its neighbors are not the goal itself.
    assert_eq!(w.maze.read(w.maze.rows - 2, w.maze.cols - 2), 'g');
    // The fog knows the player's surroundings.
    let pcx = (w.player.pos_x / FP / bs as i64) as usize;
    let pcy = (w.player.pos_y / FP / bs as i64) as usize;
    assert!(w.fog.read(pcy, pcx));
    // The player's cell is never a plain wall.
    let c = w.maze.read(pcy, pcx);
    assert!(c == ' ' || c == 'p' || c == 'g' || c == 'D');
}

#[test]
fn setup_pickup_cells_lie_inside_the_maze() {
    let raw = generate_maze_text(5, 4);
    let maze = expand_maze(&raw, 2);
    let w = setup_world(maze, 12);
    for p in w.medkits.iter().chain(w.keys.iter()).chain(w.bins.iter()) {
        assert!(p.cell.0 < w.maze.cols);
        assert!(p.cell.1 < w.maze.rows);
        assert!(!p.taken);
    }
}
