use vstd::prelude::*;

verus! {

use crate::grid::Grid;

/// Fog of war: one boolean per maze cell, true once the cell has been
/// revealed. Revelation is monotone: a revealed cell never goes dark.
pub type Fog = Grid<bool>;

/// Cell (y, x) lies within Euclidean distance `r` of (cy, cx).
pub open spec fn in_disk(y: int, x: int, cy: int, cx: int, r: int) -> bool {
    (x - cx) * (x - cx) + (y - cy) * (y - cy) <= r * r
}

/// If a point lies in a disk of radius `r`, each of its coordinate
/// offsets is at most `r` in magnitude.
proof fn lemma_disk_component(a: int, b: int, r: int)
    requires
        0 <= r,
        a * a + b * b <= r * r,
    ensures
        -r <= a <= r,
        -r <= b <= r,
{
    assert(-r <= a <= r && -r <= b <= r) by (nonlinear_arith)
        requires
            0 <= r,
            a * a + b * b <= r * r,
    ;
}

/// Reveal the disk of cells within Euclidean distance `radius` of the
/// cell (cy, cx): exactly those cells become true, and every cell that
/// was already revealed stays revealed.
pub fn reveal_fog(fog: &mut Fog, cx: usize, cy: usize, radius: u32)
    requires
        old(fog).wf(),
        cy < old(fog).rows,
        cx < old(fog).cols,
        old(fog).rows <= 100000,
        old(fog).cols <= 100000,
        radius <= 10000,
    ensures
        final(fog).wf(),
        final(fog).same_dims(*old(fog)),
        forall|y: int, x: int|
            0 <= y < old(fog).rows && 0 <= x < old(fog).cols
                ==> final(fog).at(y, x) == (old(fog).at(y, x) || in_disk(
                y,
                x,
                cy as int,
                cx as int,
                radius as int,
            )),
{
    let r: i64 = radius as i64;
    let rows: i64 = fog.rows() as i64;
    let cols: i64 = fog.cols() as i64;
    proof {
        assert forall|y: int, x: int|
            0 <= y < fog.rows && 0 <= x < fog.cols implies #[trigger] fog.at(y, x) == (old(fog).at(
            y,
            x,
        ) || (in_disk(y, x, cy as int, cx as int, r as int) && y - cy < -r)) by {
            if in_disk(y, x, cy as int, cx as int, r as int) {
                lemma_disk_component(x - cx, y - cy, r as int);
            }
        }
    }
    let mut dy: i64 = -r;
    while dy <= r
        invariant
            fog.wf(),
            fog.same_dims(*old(fog)),
            r == radius,
            rows == fog.rows,
            cols == fog.cols,
            cy < fog.rows,
            cx < fog.cols,
            fog.rows <= 100000,
            fog.cols <= 100000,
            radius <= 10000,
            -r <= dy <= r + 1,
            forall|y: int, x: int|
                0 <= y < fog.rows && 0 <= x < fog.cols ==> #[trigger] fog.at(y, x) == (old(
                    fog,
                ).at(y, x) || (in_disk(y, x, cy as int, cx as int, r as int) && y - cy < dy)),
        decreases r + 1 - dy,
    {
        let ny: i64 = cy as i64 + dy;
        if 0 <= ny && ny < rows {
            proof {
                assert forall|y: int, x: int|
                    0 <= y < fog.rows && 0 <= x < fog.cols implies #[trigger] fog.at(y, x) == (old(
                    fog,
                ).at(y, x) || (in_disk(y, x, cy as int, cx as int, r as int) && (y - cy < dy || (y
                    - cy == dy && x - cx < -r)))) by {
                    if in_disk(y, x, cy as int, cx as int, r as int) {
                        lemma_disk_component(x - cx, y - cy, r as int);
                    }
                }
            }
            let mut dx: i64 = -r;
            while dx <= r
                invariant
                    fog.wf(),
                    fog.same_dims(*old(fog)),
                    r == radius,
                    rows == fog.rows,
                    cols == fog.cols,
                    cy < fog.rows,
                    cx < fog.cols,
                    fog.rows <= 100000,
                    fog.cols <= 100000,
                    radius <= 10000,
                    -r <= dy <= r,
                    ny == cy + dy,
                    0 <= ny < rows,
                    -r <= dx <= r + 1,
                    forall|y: int, x: int|
                        0 <= y < fog.rows && 0 <= x < fog.cols ==> #[trigger] fog.at(y, x)
                            == (old(fog).at(y, x) || (in_disk(y, x, cy as int, cx as int, r as int)
                            && (y - cy < dy || (y - cy == dy && x - cx < dx)))),
                decreases r + 1 - dx,
            {
                let nx: i64 = cx as i64 + dx;
                if 0 <= nx && nx < cols {
                    proof {
                        assert(0 <= dx * dx <= 10001 * 10001 && 0 <= dy * dy <= 10001 * 10001 && 0
                            <= r * r <= 10001 * 10001) by (nonlinear_arith)
                            requires
                                -10001 <= dx <= 10001,
                                -10001 <= dy <= 10001,
                                0 <= r <= 10001,
                        ;
                    }
                    let dist2: i64 = dx * dx + dy * dy;
                    if dist2 <= r * r {
                        fog.set(ny as usize, nx as usize, true);
                    }
                }
                dx = dx + 1;
            }
            proof {
                assert forall|y: int, x: int|
                    0 <= y < fog.rows && 0 <= x < fog.cols implies #[trigger] fog.at(y, x) == (old(
                    fog,
                ).at(y, x) || (in_disk(y, x, cy as int, cx as int, r as int) && y - cy < dy
                    + 1)) by {
                    if in_disk(y, x, cy as int, cx as int, r as int) {
                        lemma_disk_component(x - cx, y - cy, r as int);
                    }
                }
            }
        } else {
            proof {
                assert forall|y: int, x: int|
                    0 <= y < fog.rows && 0 <= x < fog.cols implies #[trigger] fog.at(y, x) == (old(
                    fog,
                ).at(y, x) || (in_disk(y, x, cy as int, cx as int, r as int) && y - cy < dy
                    + 1)) by {
                    if in_disk(y, x, cy as int, cx as int, r as int) {
                        lemma_disk_component(x - cx, y - cy, r as int);
                    }
                }
            }
        }
        dy = dy + 1;
    }
    proof {
        assert forall|y: int, x: int|
            0 <= y < fog.rows && 0 <= x < fog.cols implies #[trigger] fog.at(y, x) == (old(fog).at(
            y,
            x,
        ) || in_disk(y, x, cy as int, cx as int, radius as int)) by {
            if in_disk(y, x, cy as int, cx as int, radius as int) {
                lemma_disk_component(x - cx, y - cy, r as int);
            }
        }
    }
}

} // verus!
