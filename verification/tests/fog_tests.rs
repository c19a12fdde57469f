use maze_escape::fog::reveal_fog;
use maze_escape::{Fog, Grid};

#[test]
fn reveal_marks_exactly_the_disk() {
    let mut fog: Fog = Grid::new(7, 7, false);
    reveal_fog(&mut fog, 3, 3, 2);
    for y in 0..7i64 {
        for x in 0..7i64 {
            let d2 = (x - 3) * (x - 3) + (y - 3) * (y - 3);
            assert_eq!(fog.read(y as usize, x as usize), d2 <= 4);
        }
    }
}

#[test]
fn reveal_never_clears_previously_revealed_cells() {
    let mut fog: Fog = Grid::new(9, 9, false);
    reveal_fog(&mut fog, 4, 4, 2);
    let before: Vec<(usize, usize)> = (0..9)
        .flat_map(|y| (0..9).map(move |x| (y, x)))
        .filter(|&(y, x)| fog.read(y, x))
        .collect();
    reveal_fog(&mut fog, 0, 0, 1);
    for (y, x) in before {
        assert!(fog.read(y, x));
    }
    // And the new disk is revealed too.
    assert!(fog.read(0, 0));
    assert!(fog.read(0, 1));
    assert!(fog.read(1, 0));
}

#[test]
fn reveal_at_corner_stays_in_bounds() {
    let mut fog: Fog = Grid::new(3, 3, false);
    reveal_fog(&mut fog, 0, 0, 2);
    assert!(fog.read(0, 0));
    assert!(fog.read(2, 0));
    assert!(fog.read(0, 2));
    assert!(!fog.read(2, 2));
}

#[test]
fn reveal_radius_zero_marks_only_the_center() {
    let mut fog: Fog = Grid::new(5, 5, false);
    reveal_fog(&mut fog, 2, 2, 0);
    for y in 0..5 {
        for x in 0..5 {
            assert_eq!(fog.read(y, x), y == 2 && x == 2);
        }
    }
}
