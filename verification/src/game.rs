//! The game itself: the grid with its counters, and the operations that
//! touch one cell.

use vstd::prelude::*;
use crate::board::{computes, Board};
use crate::cell::{Cell, CellContent, CellState};

verus! {

/// A game of minesweeper.
pub struct Minesweeper {
    grid: Vec<Vec<Cell>>,
    generated: bool,
    mine_count: u32,
    flag_count: u32,
    px: usize,
    py: usize,
}

impl View for Minesweeper {
    type V = Board;

    closed spec fn view(&self) -> Board {
        Board {
            grid: Seq::new(self.grid.len() as nat, |x: int| self.grid[x]@),
            generated: self.generated,
            mine_count: self.mine_count as nat,
            flag_count: self.flag_count as nat,
            cursor: (self.px as int, self.py as int),
        }
    }
}

/// 1 when `(cx, cy)` comes before `(nx, ny)`, columns first, and is a hit.
spec fn counted(b: Board, nx: int, ny: int, cx: int, cy: int, pred: spec_fn(Cell) -> bool) -> int {
    if cx < nx || (cx == nx && cy < ny) {
        b.hit(cx, cy, pred)
    } else {
        0
    }
}

/// The hits of the 3x3 block centred on `(x, y)` among the positions that
/// come before `(nx, ny)`, columns first.
spec fn hits_before(b: Board, x: int, y: int, nx: int, ny: int, pred: spec_fn(Cell) -> bool) -> int {
    counted(b, nx, ny, x - 1, y - 1, pred) + counted(b, nx, ny, x - 1, y, pred)
        + counted(b, nx, ny, x - 1, y + 1, pred) + counted(b, nx, ny, x, y - 1, pred)
        + counted(b, nx, ny, x, y, pred) + counted(b, nx, ny, x, y + 1, pred)
        + counted(b, nx, ny, x + 1, y - 1, pred) + counted(b, nx, ny, x + 1, y, pred)
        + counted(b, nx, ny, x + 1, y + 1, pred)
}

impl Board {
    /// The board a game starts with: every cell blank and covered, no mine
    /// laid, the cursor in the middle.
    pub open spec fn fresh(width: int, height: int, mine_count: nat) -> Board {
        Board {
            grid: Seq::new(width as nat, |x: int| Seq::new(height as nat, |y: int| Cell::blank())),
            generated: false,
            mine_count,
            flag_count: 0,
            cursor: (width / 2, height / 2),
        }
    }
}

impl Minesweeper {
    /// The invariant that every operation keeps.
    pub open spec fn wf(&self) -> bool {
        self@.well_formed()
    }

    /// The standard board: 30 columns, 16 rows, 99 mines.
    pub fn new() -> (game: Minesweeper)
        ensures
            game.wf(),
            game@ == Board::fresh(30, 16, 99),
    {
        Minesweeper::with_size(30, 16, 99)
    }

    /// A board of the given size with the given number of mines to lay.
    /// The board has at least one cell and more cells than mines, and no
    /// more cells than a `u32` counts.
    pub fn with_size(width: usize, height: usize, mine_count: u32) -> (game: Minesweeper)
        requires
            0 < width,
            0 < height,
            width * height <= u32::MAX,
            mine_count < width * height,
        ensures
            game.wf(),
            game@ == Board::fresh(width as int, height as int, mine_count as nat),
    {
        let mut grid: Vec<Vec<Cell>> = Vec::new();
        let mut x: usize = 0;
        while x < width
            invariant
                x <= width,
                grid.len() == x,
                forall|i: int| 0 <= i < x ==> (#[trigger] grid[i])@ == Seq::new(height as nat, |y: int| Cell::blank()),
            decreases width - x,
        {
            let column = vec![Cell::empty(); height];
            assert(column@ =~= Seq::new(height as nat, |y: int| Cell::blank()));
            grid.push(column);
            x += 1;
        }
        let game = Minesweeper {
            grid,
            generated: false,
            mine_count,
            flag_count: 0,
            px: width / 2,
            py: height / 2,
        };
        proof {
            let fresh = Board::fresh(width as int, height as int, mine_count as nat);
            assert(game@.grid =~= fresh.grid);
            assert(game@ == fresh);
            assert(fresh.flags() =~= Set::empty());
        }
        game
    }

    /// Number of columns.
    pub fn width(&self) -> (w: usize)
        ensures
            w == self@.width(),
    {
        self.grid.len()
    }

    /// Number of rows.
    pub fn height(&self) -> (h: usize)
        requires
            0 < self@.width(),
        ensures
            h == self@.height(),
    {
        self.grid[0].len()
    }

    /// The cell at `(x, y)`.
    pub fn cell(&self, x: usize, y: usize) -> (c: Cell)
        requires
            self@.rectangular(),
            self@.in_bounds(x as int, y as int),
        ensures
            c == self@.at(x as int, y as int),
    {
        self.grid[x][y]
    }

    /// Where the cursor stands.
    pub fn cursor(&self) -> (p: (usize, usize))
        ensures
            p.0 == self@.cursor.0,
            p.1 == self@.cursor.1,
    {
        (self.px, self.py)
    }

    /// Number of mines the board holds once they are laid.
    pub fn mine_count(&self) -> (n: u32)
        ensures
            n == self@.mine_count,
    {
        self.mine_count
    }

    /// Number of flags set.
    pub fn flag_count(&self) -> (n: u32)
        ensures
            n == self@.flag_count,
    {
        self.flag_count
    }

    /// True once the mines are laid.
    pub fn is_generated(&self) -> (g: bool)
        ensures
            g == self@.generated,
    {
        self.generated
    }

    /// What the status line shows: mines not yet flagged, negative once
    /// more flags than mines are set.
    pub fn mines_remaining(&self) -> (n: i64)
        ensures
            n == self@.mines_remaining(),
    {
        self.mine_count as i64 - self.flag_count as i64
    }

    /// Moves the cursor to `(x, y)`, or to the nearest cell of the board
    /// when `(x, y)` lies beyond it. No cell changes.
    pub fn move_to(&mut self, x: usize, y: usize)
        requires
            old(self).wf(),
        ensures
            final(self).wf(),
            final(self)@ == old(self)@.moved_to(x as int, y as int),
    {
        let w = self.width();
        let h = self.height();
        self.px = if x < w { x } else { w - 1 };
        self.py = if y < h { y } else { h - 1 };
        proof {
            assert(self@.grid =~= old(self)@.grid);
            old(self)@.lemma_same_grid(self@);
        }
    }

    /// Toggles the flag of the cell at `(x, y)`: a covered cell gets a
    /// flag, a flagged cell loses it, an uncovered cell stays as it is. The
    /// count of flags follows.
    pub fn mark_cell(&mut self, x: usize, y: usize)
        requires
            old(self).wf(),
            old(self)@.in_bounds(x as int, y as int),
        ensures
            final(self).wf(),
            final(self)@ == old(self)@.toggled(x as int, y as int),
    {
        let ghost before = self@;
        let ghost p = (x as int, y as int);
        match self.cell(x, y).state {
            CellState::Covered => {
                self.set_state(x, y, CellState::Flagged);
                proof {
                    let after = self@;
                    before.lemma_with_cell(p.0, p.1, after.at(p.0, p.1));
                    before.lemma_sets_finite();
                    after.lemma_sets_finite();
                    after.lemma_same_contents(before);
                    assert(after.flags() =~= before.flags().insert(p));
                    if !before.generated {
                        assert forall|i: int, j: int| after.in_bounds(i, j) implies #[trigger] after.untouched(i, j) by {
                            assert(before.untouched(i, j));
                        }
                    }
                }
                self.flag_count = self.flag_count + 1;
                proof {
                    assert(self@.grid =~= before.toggled(p.0, p.1).grid);
                    before.toggled(p.0, p.1).lemma_same_grid(self@);
                    before.with_state(p.0, p.1, CellState::Flagged).lemma_same_grid(self@);
                }
            },
            CellState::Flagged => {
                self.set_state(x, y, CellState::Covered);
                proof {
                    let after = self@;
                    before.lemma_with_cell(p.0, p.1, after.at(p.0, p.1));
                    before.lemma_sets_finite();
                    after.lemma_same_contents(before);
                    assert(before.flags().contains(p));
                    assert(after.flags() =~= before.flags().remove(p));
                    if !before.generated {
                        assert forall|i: int, j: int| after.in_bounds(i, j) implies #[trigger] after.untouched(i, j) by {
                            assert(before.untouched(i, j));
                        }
                    }
                }
                self.flag_count = self.flag_count - 1;
                proof {
                    assert(self@.grid =~= before.toggled(p.0, p.1).grid);
                    before.with_state(p.0, p.1, CellState::Covered).lemma_same_grid(self@);
                }
            },
            CellState::Uncovered => {},
        }
    }

    /// Counts the cells of the 3x3 block centred on `(x, y)`, the centre
    /// included, that are on the board and for which `pred` answers true.
    pub fn count_neighbors<F: Fn(Cell) -> bool>(&self, x: usize, y: usize, pred: F) -> (n: u8)
        requires
            self@.rectangular(),
            self@.in_bounds(x as int, y as int),
            forall|c: Cell| pred.requires((c,)),
        ensures
            n <= 9,
            forall|p: spec_fn(Cell) -> bool| #[trigger]
                computes(pred, p) ==> n == self@.neighbor_count(x as int, y as int, p),
    {
        let w = self.width();
        let h = self.height();
        let x_lo = if x > 0 { x - 1 } else { 0 };
        let y_lo = if y > 0 { y - 1 } else { 0 };
        let x_hi = if x + 1 < w { x + 1 } else { x };
        let y_hi = if y + 1 < h { y + 1 } else { y };
        let ghost b = self@;
        let ghost (cx, cy) = (x as int, y as int);
        let mut n: u8 = 0;
        let mut nx = x_lo;
        while nx <= x_hi
            invariant
                b == self@,
                b.rectangular(),
                b.in_bounds(cx, cy),
                cx == x,
                cy == y,
                w == b.width(),
                h == b.height(),
                x_lo == (if x > 0 { x - 1 } else { 0 }),
                y_lo == (if y > 0 { y - 1 } else { 0 }),
                x_hi == (if x + 1 < w { x + 1 } else { x as int }),
                y_hi == (if y + 1 < h { y + 1 } else { y as int }),
                x_lo <= nx <= x_hi + 1,
                n <= 3 * (nx - x_lo),
                forall|c: Cell| pred.requires((c,)),
                forall|p: spec_fn(Cell) -> bool| #[trigger]
                    computes(pred, p) ==> n == hits_before(b, cx, cy, nx as int, y_lo as int, p),
            decreases x_hi + 1 - nx,
        {
            let mut ny = y_lo;
            while ny <= y_hi
                invariant
                    b == self@,
                    b.rectangular(),
                    b.in_bounds(cx, cy),
                    cx == x,
                    cy == y,
                    w == b.width(),
                    h == b.height(),
                    x_lo == (if x > 0 { x - 1 } else { 0 }),
                    y_lo == (if y > 0 { y - 1 } else { 0 }),
                    x_hi == (if x + 1 < w { x + 1 } else { x as int }),
                    y_hi == (if y + 1 < h { y + 1 } else { y as int }),
                    x_lo <= nx <= x_hi,
                    y_lo <= ny <= y_hi + 1,
                    n <= 3 * (nx - x_lo) + (ny - y_lo),
                    forall|c: Cell| pred.requires((c,)),
                    forall|p: spec_fn(Cell) -> bool| #[trigger]
                        computes(pred, p) ==> n == hits_before(b, cx, cy, nx as int, ny as int, p),
                decreases y_hi + 1 - ny,
            {
                let c = self.cell(nx, ny);
                if pred(c) {
                    n = n + 1;
                }
                ny = ny + 1;
            }
            nx = nx + 1;
        }
        n
    }

    /// Replaces the state of the cell at `(x, y)`.
    pub(crate) fn set_state(&mut self, x: usize, y: usize, state: CellState)
        requires
            old(self)@.rectangular(),
            old(self)@.in_bounds(x as int, y as int),
        ensures
            final(self)@ == old(self)@.with_state(x as int, y as int, state),
    {
        assert(self@.grid[x as int] == self.grid[x as int]@);
        self.grid[x][y].state = state;
        proof {
            assert(self@.grid =~= old(self)@.with_state(x as int, y as int, state).grid);
        }
    }

    /// Replaces the content of the cell at `(x, y)`.
    pub(crate) fn set_content(&mut self, x: usize, y: usize, content: CellContent)
        requires
            old(self)@.rectangular(),
            old(self)@.in_bounds(x as int, y as int),
        ensures
            final(self)@ == old(self)@.with_content(x as int, y as int, content),
    {
        assert(self@.grid[x as int] == self.grid[x as int]@);
        self.grid[x][y].content = content;
        proof {
            assert(self@.grid =~= old(self)@.with_content(x as int, y as int, content).grid);
        }
    }

    /// Records that the mines are laid.
    pub(crate) fn set_generated(&mut self)
        ensures
            final(self)@ == (Board { generated: true, ..old(self)@ }),
    {
        self.generated = true;
        proof {
            assert(self@.grid =~= old(self)@.grid);
        }
    }
}

} // verus!
