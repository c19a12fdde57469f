use maze_escape::maze::from_rows;
use maze_escape::path::bfs_path;
use maze_escape::Maze;

fn build(rows: &[&str]) -> Maze {
    let cells: Vec<Vec<char>> = rows.iter().map(|r| r.chars().collect()).collect();
    from_rows(&cells).unwrap()
}

#[test]
fn bfs_on_five_by_five_maze_returns_k_plus_one_cells() {
    // Shortest path from (1,1) to (3,3) has length 4, so 5 cells
    // inclusive of both endpoints.
    let m = build(&["+++++", "+   +", "+ + +", "+   +", "+++++"]);
    let path = bfs_path(&m, (1, 1), (3, 3));
    assert_eq!(path.len(), 5);
    assert_eq!(path[0], (1, 1));
    assert_eq!(path[4], (3, 3));
    for i in 1..path.len() {
        let (ax, ay) = path[i - 1];
        let (bx, by) = path[i];
        let dx = (ax as i64 - bx as i64).abs();
        let dy = (ay as i64 - by as i64).abs();
        assert_eq!(dx + dy, 1);
        assert!(m.read(by, bx) == ' ' || m.read(by, bx) == 'p' || m.read(by, bx) == 'g');
    }
}

#[test]
fn bfs_unreachable_target_returns_empty_path() {
    // Two chambers split by a full wall column.
    let m = build(&["+++++", "+ + +", "+ + +", "+ + +", "+++++"]);
    let path = bfs_path(&m, (1, 1), (3, 1));
    assert_eq!(path.len(), 0);
}

#[test]
fn bfs_start_equals_target_returns_single_cell() {
    let m = build(&["+++", "+ +", "+++"]);
    let path = bfs_path(&m, (1, 1), (1, 1));
    assert_eq!(path.len(), 1);
    assert_eq!(path[0], (1, 1));
}

#[test]
fn bfs_traverses_spawn_and_goal_markers() {
    let m = build(&["+++++", "+p g+", "+++++"]);
    let path = bfs_path(&m, (1, 1), (3, 1));
    assert_eq!(path.len(), 3);
}

#[test]
fn bfs_target_on_wall_returns_empty_path() {
    let m = build(&["+++", "+ +", "+++"]);
    let path = bfs_path(&m, (1, 1), (0, 0));
    assert_eq!(path.len(), 0);
}
