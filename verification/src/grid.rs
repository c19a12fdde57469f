use vstd::prelude::*;

verus! {

/// A rectangular grid stored row-major in one flat vector, so that
/// rectangularity (every row the same length) holds by construction.
/// It backs the maze, the fog-of-war and the pathfinder's scratch state.
pub struct Grid<T> {
    pub rows: usize,
    pub cols: usize,
    pub cells: Vec<T>,
}

impl<T> Grid<T> {
    /// The flat vector holds exactly `rows * cols` cells.
    pub open spec fn wf(self) -> bool {
        self.cells@.len() == self.rows * self.cols
    }

    /// The cell in row `y`, column `x`.
    pub open spec fn at(self, y: int, x: int) -> T {
        self.cells@[y * self.cols + x]
    }

    /// The two grids have the same dimensions.
    pub open spec fn same_dims(self, other: Self) -> bool {
        self.rows == other.rows && self.cols == other.cols
    }

    pub fn rows(&self) -> (r: usize)
        ensures
            r == self.rows,
    {
        self.rows
    }

    pub fn cols(&self) -> (c: usize)
        ensures
            c == self.cols,
    {
        self.cols
    }

    pub fn get(&self, y: usize, x: usize) -> (v: &T)
        requires
            self.wf(),
            y < self.rows,
            x < self.cols,
        ensures
            *v == self.at(y as int, x as int),
    {
        let n: usize = self.cells.len();
        proof {
            lemma_flat_index_bound(y as int, x as int, self.rows as int, self.cols as int);
        }
        &self.cells[y * self.cols + x]
    }

    pub fn set(&mut self, y: usize, x: usize, v: T)
        requires
            old(self).wf(),
            y < old(self).rows,
            x < old(self).cols,
        ensures
            final(self).wf(),
            final(self).same_dims(*old(self)),
            final(self).at(y as int, x as int) == v,
            final(self).cells@ == old(self).cells@.update(y as int * old(self).cols + x, v),
            forall|y2: int, x2: int|
                0 <= y2 < old(self).rows && 0 <= x2 < old(self).cols && !(y2 == y && x2 == x)
                    ==> final(self).at(y2, x2) == old(self).at(y2, x2),
    {
        let n: usize = self.cells.len();
        proof {
            lemma_flat_index_bound(y as int, x as int, self.rows as int, self.cols as int);
        }
        let i: usize = y * self.cols + x;
        self.cells.set(i, v);
        proof {
            assert forall|y2: int, x2: int|
                0 <= y2 < self.rows && 0 <= x2 < self.cols && !(y2 == y && x2 == x)
                    implies self.at(y2, x2) == old(self).at(y2, x2) by {
                lemma_flat_index_bound(y2, x2, self.rows as int, self.cols as int);
                lemma_flat_index_injective(y as int, x as int, y2, x2, self.cols as int);
            }
        }
    }
}

impl<T: Copy> Grid<T> {
    /// A fresh grid with every cell holding `fill`.
    pub fn new(rows: usize, cols: usize, fill: T) -> (g: Grid<T>)
        requires
            rows * cols <= usize::MAX,
        ensures
            g.wf(),
            g.rows == rows,
            g.cols == cols,
            forall|y: int, x: int| 0 <= y < rows && 0 <= x < cols ==> g.at(y, x) == fill,
            forall|k: int| 0 <= k < g.cells@.len() ==> g.cells@[k] == fill,
    {
        let mut cells: Vec<T> = Vec::new();
        let total: usize = rows * cols;
        let mut i: usize = 0;
        while i < total
            invariant
                i <= total,
                cells@.len() == i,
                forall|k: int| 0 <= k < i ==> cells@[k] == fill,
            decreases total - i,
        {
            cells.push(fill);
            i = i + 1;
        }
        let g = Grid { rows, cols, cells };
        proof {
            assert forall|y: int, x: int| 0 <= y < rows && 0 <= x < cols implies g.at(y, x) == fill by {
                lemma_flat_index_bound(y, x, rows as int, cols as int);
            }
        }
        g
    }

    /// Read a cell by value.
    pub fn read(&self, y: usize, x: usize) -> (v: T)
        requires
            self.wf(),
            y < self.rows,
            x < self.cols,
        ensures
            v == self.at(y as int, x as int),
    {
        *self.get(y, x)
    }
}

/// How many entries of a boolean sequence are true.
pub open spec fn count_true(s: Seq<bool>) -> nat
    decreases s.len(),
{
    if s.len() == 0 {
        0
    } else {
        count_true(s.drop_last()) + if s.last() {
            1nat
        } else {
            0nat
        }
    }
}

/// At most every entry is true.
pub proof fn lemma_count_true_le_len(s: Seq<bool>)
    ensures
        count_true(s) <= s.len(),
    decreases s.len(),
{
    if s.len() > 0 {
        lemma_count_true_le_len(s.drop_last());
    }
}

/// A sequence with no true entry counts zero.
pub proof fn lemma_count_all_false(s: Seq<bool>)
    requires
        forall|i: int| 0 <= i < s.len() ==> !s[i],
    ensures
        count_true(s) == 0,
    decreases s.len(),
{
    if s.len() > 0 {
        lemma_count_all_false(s.drop_last());
    }
}

/// A sequence with every entry true counts its whole length.
pub proof fn lemma_count_all_true(s: Seq<bool>)
    requires
        forall|i: int| 0 <= i < s.len() ==> s[i],
    ensures
        count_true(s) == s.len(),
    decreases s.len(),
{
    if s.len() > 0 {
        lemma_count_all_true(s.drop_last());
    }
}

/// A grid with every cell true has a full count.
pub proof fn lemma_count_grid_all_true(g: Grid<bool>)
    requires
        g.wf(),
        g.rows >= 1,
        g.cols >= 1,
        forall|y: int, x: int| 0 <= y < g.rows && 0 <= x < g.cols ==> g.at(y, x),
    ensures
        count_true(g.cells@) == g.rows * g.cols,
{
    assert forall|k: int| 0 <= k < g.cells@.len() implies g.cells@[k] by {
        let cols = g.cols as int;
        let y = k / cols;
        let x = k % cols;
        vstd::arithmetic::div_mod::lemma_fundamental_div_mod(k, cols);
        vstd::arithmetic::div_mod::lemma_mod_division_less_than_divisor(k, cols);
        vstd::arithmetic::div_mod::lemma_remainder_lower(k, cols);
        vstd::arithmetic::div_mod::lemma_div_pos_is_pos(k, cols);
        assert(y < g.rows) by (nonlinear_arith)
            requires
                0 <= y,
                cols >= 1,
                k == cols * y + x,
                0 <= x < cols,
                k < g.rows * cols,
        ;
        assert(g.at(y, x));
        assert(y * cols + x == k) by (nonlinear_arith)
            requires
                k == cols * y + x,
        ;
    }
    lemma_count_all_true(g.cells@);
}

/// Turning one false entry true raises the count by exactly one.
pub proof fn lemma_count_true_update(s: Seq<bool>, i: int)
    requires
        0 <= i < s.len(),
        !s[i],
    ensures
        count_true(s.update(i, true)) == count_true(s) + 1,
    decreases s.len(),
{
    if i == s.len() - 1 {
        assert(s.update(i, true).drop_last() =~= s.drop_last());
    } else {
        assert(s.update(i, true).drop_last() =~= s.drop_last().update(i, true));
        lemma_count_true_update(s.drop_last(), i);
    }
}

/// A row-major flat index stays below `rows * cols`.
pub proof fn lemma_flat_index_bound(y: int, x: int, rows: int, cols: int)
    requires
        0 <= y < rows,
        0 <= x < cols,
    ensures
        0 <= y * cols + x < rows * cols,
{
    assert(0 <= y * cols + x < rows * cols) by (nonlinear_arith)
        requires
            0 <= y < rows,
            0 <= x < cols,
    ;
}

/// Distinct (row, column) pairs map to distinct flat indices.
pub proof fn lemma_flat_index_injective(y1: int, x1: int, y2: int, x2: int, cols: int)
    requires
        0 <= x1 < cols,
        0 <= x2 < cols,
        0 <= y1,
        0 <= y2,
        !(y1 == y2 && x1 == x2),
    ensures
        y1 * cols + x1 != y2 * cols + x2,
{
    assert(y1 * cols + x1 != y2 * cols + x2) by (nonlinear_arith)
        requires
            0 <= x1 < cols,
            0 <= x2 < cols,
            0 <= y1,
            0 <= y2,
            !(y1 == y2 && x1 == x2),
    ;
}

} // verus!
