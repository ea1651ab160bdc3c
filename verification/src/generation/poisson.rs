//! Poisson-disc sampling: spreads points that keep a distance from each other.
//!
//! A [`Sampler`] keeps the book: which samples may still get neighbours, and which
//! sample lies in which cell of a grid that is fine enough for one sample per cell.
//! Whoever drives it places the candidates and measures their distances.

use crate::rng::{draw_index, drawn_index, past_index};
use crate::sequences::lemma_push_contains;
use rand::rngs::StdRng;
use vstd::prelude::*;

verus! {

/// How many candidates are tried around a sample before it is given up.
pub const CANDIDATES: u32 = 30;

/// The samples in a row of the grid, from column `from` up to, not including, `to`.
pub open spec fn row_samples(grid: Seq<Option<usize>>, cols: int, y: int, from: int, to: int) -> Seq<
    usize,
>
    decreases to - from,
{
    if to <= from {
        Seq::empty()
    } else {
        let before = row_samples(grid, cols, y, from, to - 1);
        match grid[y * cols + (to - 1)] {
            Some(i) => before.push(i),
            None => before,
        }
    }
}

/// The samples in some rows of the grid.
pub open spec fn block_samples(
    grid: Seq<Option<usize>>,
    cols: int,
    top: int,
    bottom: int,
    from: int,
    to: int,
) -> Seq<usize>
    decreases bottom - top,
{
    if bottom <= top {
        Seq::empty()
    } else {
        block_samples(grid, cols, top, bottom - 1, from, to) + row_samples(
            grid,
            cols,
            bottom - 1,
            from,
            to,
        )
    }
}

/// The first of the places within two of `c`.
pub open spec fn low_side(c: int) -> int {
    if c >= 2 {
        c - 2
    } else {
        0
    }
}

/// One past the last of the places within two of `c`, where there are `n` places.
pub open spec fn high_side(c: int, n: int) -> int {
    if c + 3 <= n {
        c + 3
    } else {
        n
    }
}

/// The book of a sampling.
pub struct Sampler {
    cols: usize,
    rows: usize,
    grid: Vec<Option<usize>>,
    active: Vec<usize>,
    count: usize,
    turn: Option<(usize, u32)>,
}

impl Sampler {
    /// The width of the grid.
    pub closed spec fn cols(&self) -> int {
        self.cols as int
    }

    /// The height of the grid.
    pub closed spec fn rows(&self) -> int {
        self.rows as int
    }

    /// The last sample of each cell of the grid, row by row.
    pub closed spec fn grid(&self) -> Seq<Option<usize>> {
        self.grid@
    }

    /// The samples that may still get neighbours.
    pub closed spec fn active(&self) -> Seq<usize> {
        self.active@
    }

    /// How many samples there are.
    pub closed spec fn count(&self) -> nat {
        self.count as nat
    }

    /// The place among the active samples of the one whose turn it is, and how many
    /// candidates around it have been turned down.
    pub closed spec fn turn(&self) -> Option<(usize, u32)> {
        self.turn
    }

    /// The grid has the size that it should have, and everything speaks of samples
    /// that there are.
    pub closed spec fn wf(&self) -> bool {
        &&& self.cols > 0
        &&& self.rows > 0
        &&& self.grid@.len() == self.rows * self.cols
        &&& forall|k: int|
            0 <= k < self.grid@.len() && (#[trigger] self.grid@[k]) is Some
                ==> self.grid@[k]->Some_0 < self.count
        &&& forall|k: int| 0 <= k < self.active@.len() ==> (#[trigger] self.active@[k]) < self.count
        &&& match self.turn {
            Some((pick, tries)) => pick < self.active@.len() && tries < CANDIDATES,
            None => true,
        }
    }

    /// A sampling with one sample, in the given cell of the grid.
    pub fn new(cols: usize, rows: usize, cx: usize, cy: usize) -> (sampler: Self)
        requires
            cols > 0,
            rows > 0,
            rows * cols <= usize::MAX,
            cy * cols + cx < rows * cols,
        ensures
            sampler.wf(),
            sampler.cols() == cols,
            sampler.rows() == rows,
            sampler.count() == 1,
            sampler.active() == seq![0usize],
            sampler.turn() is None,
            sampler.grid() == Seq::new(
                (rows * cols) as nat,
                |k: int|
                    if k == cy * cols + cx {
                        Some(0usize)
                    } else {
                        None
                    },
            ),
    {
        let len: usize = rows * cols;
        let mut grid: Vec<Option<usize>> = Vec::new();
        let mut k: usize = 0;
        while k < len
            invariant
                k <= len,
                grid@.len() == k,
                forall|j: int| 0 <= j < k ==> (#[trigger] grid@[j]) is None,
            decreases len - k,
        {
            grid.push(None);
            k += 1;
        }
        proof {
            assert(cy * cols >= 0) by (nonlinear_arith)
                requires
                    cy >= 0,
                    cols >= 0,
            ;
        }
        let at: usize = cy * cols + cx;
        grid[at] = Some(0);
        let mut active: Vec<usize> = Vec::new();
        active.push(0);
        let sampler = Sampler { cols, rows, grid, active, count: 1, turn: None };
        proof {
            assert(sampler.active@ =~= seq![0usize]);
            assert(sampler.grid@ =~= Seq::new(
                (rows * cols) as nat,
                |k: int|
                    if k == cy * cols + cx {
                        Some(0usize)
                    } else {
                        None
                    },
            ));
        }
        sampler
    }

    /// The sample that the next candidate is placed around, if there is one left. A
    /// new turn goes to one of the active samples, drawn from `rng`.
    pub fn next_parent(&mut self, rng: &mut StdRng) -> (r: Option<usize>)
        requires
            old(self).wf(),
        ensures
            final(self).wf(),
            final(self).cols() == old(self).cols(),
            final(self).rows() == old(self).rows(),
            final(self).grid() == old(self).grid(),
            final(self).active() == old(self).active(),
            final(self).count() == old(self).count(),
            match old(self).turn() {
                Some(turn) => {
                    &&& final(self).turn() == Some(turn)
                    &&& r == Some(old(self).active()[turn.0 as int])
                    &&& *final(rng) == *old(rng)
                },
                None => if old(self).active().len() == 0 {
                    &&& final(self).turn() is None
                    &&& r is None
                    &&& *final(rng) == *old(rng)
                } else {
                    let n = old(self).active().len() as usize;
                    let pick = drawn_index(*old(rng), n);
                    &&& final(self).turn() == Some((pick, 0u32))
                    &&& pick < old(self).active().len()
                    &&& r == Some(old(self).active()[pick as int])
                    &&& *final(rng) == past_index(*old(rng), n)
                },
            },
            r is Some ==> r->Some_0 < old(self).count(),
    {
        match self.turn {
            Some((pick, _)) => Some(self.active[pick]),
            None => {
                assert(self.active@.len() == self.active.len());
                if self.active.len() == 0 {
                    return None;
                }
                let pick = draw_index(rng, self.active.len());
                self.turn = Some((pick, 0));
                Some(self.active[pick])
            },
        }
    }

    /// The samples within two cells of a cell of the grid, row by row. A candidate in
    /// that cell can be too close to these only.
    pub fn nearby(&self, cx: usize, cy: usize) -> (r: Vec<usize>)
        requires
            self.wf(),
        ensures
            r@ == block_samples(
                self.grid(),
                self.cols(),
                low_side(cy as int),
                high_side(cy as int, self.rows()),
                low_side(cx as int),
                high_side(cx as int, self.cols()),
            ),
            forall|k: int| 0 <= k < r@.len() ==> (#[trigger] r@[k]) < self.count(),
    {
        let left: usize = if cx >= 2 {
            cx - 2
        } else {
            0
        };
        let top: usize = if cy >= 2 {
            cy - 2
        } else {
            0
        };
        let right: usize = if cx < self.cols && self.cols - cx >= 3 {
            cx + 3
        } else {
            self.cols
        };
        let bottom: usize = if cy < self.rows && self.rows - cy >= 3 {
            cy + 3
        } else {
            self.rows
        };
        let mut r: Vec<usize> = Vec::new();
        let mut y = top;
        while y < bottom
            invariant
                self.wf(),
                bottom <= self.rows,
                right <= self.cols,
                top <= y,
                top <= bottom ==> y <= bottom,
                bottom < top ==> y == top,
                r@ == block_samples(
                    self.grid@,
                    self.cols as int,
                    top as int,
                    y as int,
                    left as int,
                    right as int,
                ),
                forall|k: int| 0 <= k < r@.len() ==> (#[trigger] r@[k]) < self.count,
            decreases bottom - y,
        {
            let ghost before = r@;
            let mut x = left;
            assert(before + row_samples(
                self.grid@,
                self.cols as int,
                y as int,
                left as int,
                x as int,
            ) =~= before);
            while x < right
                invariant
                    self.wf(),
                    y < self.rows,
                    right <= self.cols,
                    left <= x,
                    left <= right ==> x <= right,
                    right < left ==> x == left,
                    r@ == before + row_samples(
                        self.grid@,
                        self.cols as int,
                        y as int,
                        left as int,
                        x as int,
                    ),
                    forall|k: int| 0 <= k < r@.len() ==> (#[trigger] r@[k]) < self.count,
                decreases right - x,
            {
                proof {
                    assert(0 <= y * self.cols && y * self.cols + self.cols <= self.rows * self.cols)
                        by (nonlinear_arith)
                        requires
                            0 <= y < self.rows,
                            self.cols > 0,
                    ;
                    assert(self.grid@.len() == self.grid.len());
                }
                if let Some(i) = self.grid[y * self.cols + x] {
                    r.push(i);
                }
                x += 1;
                assert(r@ =~= before + row_samples(
                    self.grid@,
                    self.cols as int,
                    y as int,
                    left as int,
                    x as int,
                ));
            }
            y += 1;
        }
        r
    }

    /// Takes the candidate as a sample, in the given cell of the grid. The turn ends.
    pub fn accept(&mut self, cx: usize, cy: usize) -> (index: usize)
        requires
            old(self).wf(),
            old(self).turn() is Some,
            old(self).count() < usize::MAX,
            cy * old(self).cols() + cx < old(self).rows() * old(self).cols(),
        ensures
            final(self).wf(),
            index == old(self).count(),
            final(self).cols() == old(self).cols(),
            final(self).rows() == old(self).rows(),
            final(self).count() == old(self).count() + 1,
            final(self).grid() == old(self).grid().update(
                cy * old(self).cols() + cx,
                Some(index),
            ),
            final(self).active() == old(self).active().push(index),
            final(self).turn() is None,
    {
        let index = self.count;
        proof {
            assert(cy * self.cols >= 0) by (nonlinear_arith)
                requires
                    cy >= 0,
                    self.cols >= 0,
            ;
            assert(self.grid@.len() == self.grid.len());
        }
        let at: usize = cy * self.cols + cx;
        self.grid[at] = Some(index);
        self.active.push(index);
        self.count = index + 1;
        self.turn = None;
        index
    }

    /// Turns a candidate down. After the last one that is tried, the sample around
    /// which they were placed is given up, and the turn ends.
    pub fn reject(&mut self)
        requires
            old(self).wf(),
            old(self).turn() is Some,
        ensures
            final(self).wf(),
            final(self).cols() == old(self).cols(),
            final(self).rows() == old(self).rows(),
            final(self).grid() == old(self).grid(),
            final(self).count() == old(self).count(),
            ({
                let (pick, tries) = old(self).turn()->Some_0;
                let active = old(self).active();
                if tries + 1 < 30 {
                    &&& final(self).turn() == Some((pick, (tries + 1) as u32))
                    &&& final(self).active() == active
                } else {
                    &&& final(self).turn() is None
                    &&& final(self).active() == active.update(
                        pick as int,
                        active.last(),
                    ).drop_last()
                }
            }),
    {
        if let Some((pick, tries)) = self.turn {
            if tries + 1 < CANDIDATES {
                self.turn = Some((pick, tries + 1));
            } else {
                self.turn = None;
                self.active.swap_remove(pick);
            }
        }
    }
}

proof fn lemma_row_samples(
    grid: Seq<Option<usize>>,
    cols: int,
    y: int,
    from: int,
    to: int,
    sample: usize,
)
    ensures
        row_samples(grid, cols, y, from, to).contains(sample) <==> exists|x: int|
            from <= x < to && #[trigger] grid[y * cols + x] == Some(sample),
    decreases to - from,
{
    if from < to {
        lemma_row_samples(grid, cols, y, from, to - 1, sample);
        let before = row_samples(grid, cols, y, from, to - 1);
        if let Some(i) = grid[y * cols + (to - 1)] {
            lemma_push_contains(before, i, sample);
        }
        if before.contains(sample) {
            let x = choose|x: int|
                from <= x < to - 1 && #[trigger] grid[y * cols + x] == Some(sample);
            assert(grid[y * cols + x] == Some(sample));
        }
        assert(grid[y * cols + (to - 1)] == grid[y * cols + (to - 1)]);
    }
}

/// The neighbourhood of a cell of the grid holds the samples of the cells within two
/// columns and two rows of it, and no others.
pub proof fn law_neighborhood(
    grid: Seq<Option<usize>>,
    cols: int,
    top: int,
    bottom: int,
    from: int,
    to: int,
    sample: usize,
)
    ensures
        block_samples(grid, cols, top, bottom, from, to).contains(sample) <==> exists|y: int|
            top <= y < bottom && #[trigger] row_samples(grid, cols, y, from, to).contains(sample),
        forall|y: int| #[trigger]
            row_samples(grid, cols, y, from, to).contains(sample) <==> exists|x: int|
                from <= x < to && #[trigger] grid[y * cols + x] == Some(sample),
    decreases bottom - top,
{
    assert forall|y: int| #[trigger]
        row_samples(grid, cols, y, from, to).contains(sample) <==> exists|x: int|
            from <= x < to && #[trigger] grid[y * cols + x] == Some(sample) by {
        lemma_row_samples(grid, cols, y, from, to, sample);
    }
    if top < bottom {
        law_neighborhood(grid, cols, top, bottom - 1, from, to, sample);
        let before = block_samples(grid, cols, top, bottom - 1, from, to);
        let row = row_samples(grid, cols, bottom - 1, from, to);
        let all = before + row;
        if all.contains(sample) {
            let i = choose|i: int| 0 <= i < all.len() && all[i] == sample;
            if i < before.len() {
                assert(before[i] == sample);
            } else {
                assert(row[i - before.len()] == sample);
            }
        }
        if before.contains(sample) {
            let i = choose|i: int| 0 <= i < before.len() && before[i] == sample;
            assert(all[i] == sample);
        }
        if row.contains(sample) {
            let i = choose|i: int| 0 <= i < row.len() && row[i] == sample;
            assert(all[before.len() + i] == sample);
        }
    }
}

/// A sample is nearby if and only if it lies in a cell of the grid that is at most two
/// columns and two rows away.
pub proof fn law_nearby_is_two_cells_away(
    grid: Seq<Option<usize>>,
    cols: int,
    rows: int,
    cx: int,
    cy: int,
    sample: usize,
)
    requires
        cx >= 0,
        cy >= 0,
    ensures
        block_samples(
            grid,
            cols,
            low_side(cy),
            high_side(cy, rows),
            low_side(cx),
            high_side(cx, cols),
        ).contains(sample) <==> exists|x: int, y: int|
            0 <= x < cols && 0 <= y < rows && -2 <= x - cx <= 2 && -2 <= y - cy <= 2
                && #[trigger] grid[y * cols + x] == Some(sample),
{
    let (top, bottom) = (low_side(cy), high_side(cy, rows));
    let (from, to) = (low_side(cx), high_side(cx, cols));
    law_neighborhood(grid, cols, top, bottom, from, to, sample);
    if block_samples(grid, cols, top, bottom, from, to).contains(sample) {
        let y = choose|y: int|
            top <= y < bottom && #[trigger] row_samples(grid, cols, y, from, to).contains(sample);
        let x = choose|x: int| from <= x < to && #[trigger] grid[y * cols + x] == Some(sample);
        assert(grid[y * cols + x] == Some(sample));
    }
    if exists|x: int, y: int|
        0 <= x < cols && 0 <= y < rows && -2 <= x - cx <= 2 && -2 <= y - cy <= 2
            && #[trigger] grid[y * cols + x] == Some(sample) {
        let (x, y) = choose|x: int, y: int|
            0 <= x < cols && 0 <= y < rows && -2 <= x - cx <= 2 && -2 <= y - cy <= 2
                && #[trigger] grid[y * cols + x] == Some(sample);
        assert(from <= x < to && grid[y * cols + x] == Some(sample));
        assert(row_samples(grid, cols, y, from, to).contains(sample));
        assert(top <= y < bottom);
    }
}

} // verus!
