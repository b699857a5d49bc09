//! A dense two-dimensional table of alignment cells.
use vstd::prelude::*;

verus! {

/// The step that produced the best score of a cell.
#[derive(Clone, Copy, Debug, PartialEq, Eq, Structural)]
pub enum Dir {
    Diagonal,
    Up,
    Left,
}

/// One cell of the table: where its best score came from, and that score.
#[derive(Clone, Copy, Debug, PartialEq, Eq, Structural)]
pub struct Score {
    pub dir: Dir,
    pub score: i128,
}

impl Score {
    /// The placeholder that a fresh table holds in every cell.
    pub open spec fn placeholder() -> Score {
        Score { dir: Dir::Diagonal, score: 0 }
    }
}

/// A `width` by `height` table, stored row by row.
pub struct Grid {
    width: usize,
    height: usize,
    cells: Vec<Score>,
}

proof fn lemma_index_in_bounds(w: int, h: int, i: int, j: int)
    requires
        0 <= i < w,
        0 <= j < h,
    ensures
        0 <= j * w + i < w * h,
{
    assert(0 <= j * w) by (nonlinear_arith)
        requires
            0 <= j,
            0 <= w,
    ;
    assert((j + 1) * w <= h * w) by (nonlinear_arith)
        requires
            j + 1 <= h,
            0 <= w,
    ;
    assert(w * h == h * w) by (nonlinear_arith);
    assert((j + 1) * w == j * w + w) by (nonlinear_arith);
}

proof fn lemma_index_distinct(w: int, i: int, j: int, ii: int, jj: int)
    requires
        0 <= i < w,
        0 <= ii < w,
        0 <= j,
        0 <= jj,
        i != ii || j != jj,
    ensures
        j * w + i != jj * w + ii,
{
    if j < jj {
        assert(j * w + w <= jj * w) by (nonlinear_arith)
            requires
                j + 1 <= jj,
                0 <= w,
        ;
    } else if jj < j {
        assert(jj * w + w <= j * w) by (nonlinear_arith)
            requires
                jj + 1 <= j,
                0 <= w,
        ;
    }
}

impl Grid {
    pub closed spec fn width(&self) -> nat {
        self.width as nat
    }

    pub closed spec fn height(&self) -> nat {
        self.height as nat
    }

    /// The cell in column `i` and row `j`.
    pub closed spec fn cell(&self, i: int, j: int) -> Score {
        self.cells@[j * self.width + i]
    }

    pub closed spec fn wf(&self) -> bool {
        &&& self.cells@.len() == self.width * self.height
        &&& self.width * self.height <= usize::MAX
    }

    /// A table of `width * height` cells, each holding the placeholder.
    pub fn new(width: usize, height: usize) -> (r: Grid)
        requires
            width * height <= usize::MAX,
        ensures
            r.wf(),
            r.width() == width,
            r.height() == height,
            forall|i: int, j: int|
                0 <= i < width && 0 <= j < height ==> #[trigger] r.cell(i, j)
                    == Score::placeholder(),
    {
        let n: usize = width * height;
        let mut cells: Vec<Score> = Vec::with_capacity(n);
        let mut k: usize = 0;
        while k < n
            invariant
                k <= n,
                cells@.len() == k,
                forall|m: int| 0 <= m < k ==> #[trigger] cells@[m] == Score::placeholder(),
            decreases n - k,
        {
            cells.push(Score { dir: Dir::Diagonal, score: 0 });
            k = k + 1;
        }
        let r = Grid { width, height, cells };
        assert forall|i: int, j: int| 0 <= i < width && 0 <= j < height implies #[trigger] r.cell(
            i,
            j,
        ) == Score::placeholder() by {
            lemma_index_in_bounds(width as int, height as int, i, j);
        }
        r
    }

    /// Number of columns.
    pub fn column_count(&self) -> (r: usize)
        ensures
            r == self.width(),
    {
        self.width
    }

    /// Number of rows.
    pub fn row_count(&self) -> (r: usize)
        ensures
            r == self.height(),
    {
        self.height
    }

    /// The cell in column `i` and row `j`.
    pub fn get(&self, i: usize, j: usize) -> (r: Score)
        requires
            self.wf(),
            i < self.width(),
            j < self.height(),
        ensures
            r == self.cell(i as int, j as int),
    {
        proof {
            lemma_index_in_bounds(self.width as int, self.height as int, i as int, j as int);
        }
        self.cells[j * self.width + i]
    }

    /// Overwrites the cell in column `i` and row `j`; every other cell is kept.
    pub fn set(&mut self, i: usize, j: usize, s: Score)
        requires
            old(self).wf(),
            i < old(self).width(),
            j < old(self).height(),
        ensures
            final(self).wf(),
            final(self).width() == old(self).width(),
            final(self).height() == old(self).height(),
            final(self).cell(i as int, j as int) == s,
            forall|ii: int, jj: int|
                0 <= ii < old(self).width() && 0 <= jj < old(self).height() && (ii != i || jj
                    != j) ==> #[trigger] final(self).cell(ii, jj) == old(self).cell(ii, jj),
    {
        proof {
            lemma_index_in_bounds(self.width as int, self.height as int, i as int, j as int);
        }
        let k = j * self.width + i;
        self.cells.set(k, s);
        proof {
            assert forall|ii: int, jj: int|
                0 <= ii < self.width && 0 <= jj < self.height && (ii != i || jj != j) implies
                #[trigger] self.cell(ii, jj) == old(self).cell(ii, jj) by {
                lemma_index_distinct(self.width as int, i as int, j as int, ii, jj);
                lemma_index_in_bounds(self.width as int, self.height as int, ii, jj);
            }
        }
    }
}

} // verus!
