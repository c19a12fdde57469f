use maze_escape::generator::generate_maze_text;
use maze_escape::path::bfs_path;

#[test]
fn generated_maze_has_expected_dimensions() {
    let m = generate_maze_text(4, 3);
    assert_eq!(m.rows, 2 * 3 + 1);
    assert_eq!(m.cols, 2 * 4 + 1);
}

#[test]
fn generated_maze_cell_classification() {
    let m = generate_maze_text(5, 4);
    for y in 0..m.rows {
        for x in 0..m.cols {
            let c = m.read(y, x);
            if y % 2 == 1 && x % 2 == 1 {
                if y == m.rows - 2 && x == m.cols - 2 {
                    assert_eq!(c, 'g');
                } else if y == 1 && x == 1 {
                    assert_eq!(c, 'p');
                } else {
                    assert_eq!(c, ' ');
                }
            } else if y % 2 == 0 && x % 2 == 0 {
                assert_eq!(c, '+');
            } else if y % 2 == 0 {
                assert!(c == '-' || c == ' ');
            } else {
                assert!(c == '|' || c == ' ');
            }
        }
    }
}

#[test]
fn generated_maze_border_stays_closed() {
    let m = generate_maze_text(6, 5);
    for y in 0..m.rows {
        assert_ne!(m.read(y, 0), ' ');
        assert_ne!(m.read(y, m.cols - 1), ' ');
    }
    for x in 0..m.cols {
        assert_ne!(m.read(0, x), ' ');
        assert_ne!(m.read(m.rows - 1, x), ' ');
    }
}

#[test]
fn generated_maze_opened_walls_count_is_rooms_minus_one() {
    let w = 7;
    let h = 5;
    let m = generate_maze_text(w, h);
    let mut opened = 0;
    for y in 0..m.rows {
        for x in 0..m.cols {
            let wall_slot = (y % 2) + (x % 2) == 1;
            if wall_slot && m.read(y, x) == ' ' {
                opened += 1;
            }
        }
    }
    assert_eq!(opened, w * h - 1);
}

#[test]
fn generated_maze_every_room_reachable_from_spawn_room() {
    let w = 6;
    let h = 4;
    let m = generate_maze_text(w, h);
    for ry in 0..h {
        for rx in 0..w {
            let target = (2 * rx + 1, 2 * ry + 1);
            let path = bfs_path(&m, (1, 1), target);
            assert!(path.len() >= 1);
            assert_eq!(path[0], (1, 1));
            assert_eq!(path[path.len() - 1], target);
        }
    }
}

#[test]
fn one_room_maze_goal_overwrites_spawn() {
    let m = generate_maze_text(1, 1);
    assert_eq!(m.rows, 3);
    assert_eq!(m.cols, 3);
    assert_eq!(m.read(1, 1), 'g');
}
