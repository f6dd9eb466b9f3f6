//! The ghost model of a game: a grid of cells with its counters, and the
//! predicates that the contracts of the executable code are written in.

use vstd::prelude::*;
use crate::cell::{holds_mine, Cell, CellContent, CellState};

verus! {

/// Mathematical view of a game. `grid[x][y]` is the cell in column `x`,
/// row `y`.
#[verifier::ext_equal]
pub struct Board {
    pub grid: Seq<Seq<Cell>>,
    pub generated: bool,
    pub mine_count: nat,
    pub flag_count: nat,
    pub cursor: (int, int),
}

/// True when `(nx, ny)` lies in the 3x3 block centred on `(x, y)`.
pub open spec fn near(x: int, y: int, nx: int, ny: int) -> bool {
    x - 1 <= nx <= x + 1 && y - 1 <= ny <= y + 1
}

/// The executable predicate `pred` answers on every cell what `p` says.
pub open spec fn computes<F: Fn(Cell) -> bool>(pred: F, p: spec_fn(Cell) -> bool) -> bool {
    forall|c: Cell, r: bool| #[trigger] pred.ensures((c,), r) ==> r == p(c)
}

/// A position held in machine integers, as a position of the model.
pub open spec fn cell_of(w: (usize, usize)) -> (int, int) {
    (w.0 as int, w.1 as int)
}

/// A list of positions held in machine integers, as positions of the model.
pub open spec fn cells(v: Seq<(usize, usize)>) -> Seq<(int, int)> {
    v.map_values(|w: (usize, usize)| cell_of(w))
}

/// How many of the positions `c - 1`, `c`, `c + 1` fall in `0..len`.
pub open spec fn span(c: int, len: int) -> int {
    (if 0 <= c - 1 < len { 1int } else { 0int })
    + (if 0 <= c < len { 1int } else { 0int })
    + (if 0 <= c + 1 < len { 1int } else { 0int })
}

impl Board {
    /// Number of columns.
    pub open spec fn width(self) -> int {
        self.grid.len() as int
    }

    /// Number of rows: the height of the first column.
    pub open spec fn height(self) -> int {
        if self.grid.len() == 0 {
            0
        } else {
            self.grid[0].len() as int
        }
    }

    /// Position `(x, y)` is on the board.
    pub open spec fn in_bounds(self, x: int, y: int) -> bool {
        0 <= x < self.width() && 0 <= y < self.height()
    }

    /// The cell in column `x`, row `y`.
    pub open spec fn at(self, x: int, y: int) -> Cell {
        self.grid[x][y]
    }

    /// Every column has the same height.
    pub open spec fn rectangular(self) -> bool {
        forall|x: int| 0 <= x < self.grid.len() ==> (#[trigger] self.grid[x]).len() == self.height()
    }

    /// 1 when `(x, y)` is on the board and its cell satisfies `pred`, else 0.
    pub open spec fn hit(self, x: int, y: int, pred: spec_fn(Cell) -> bool) -> int {
        if self.in_bounds(x, y) && pred(self.at(x, y)) {
            1
        } else {
            0
        }
    }

    /// Number of cells of the 3x3 block centred on `(x, y)`, the centre
    /// included, that are on the board and satisfy `pred`.
    pub open spec fn neighbor_count(self, x: int, y: int, pred: spec_fn(Cell) -> bool) -> int {
        self.hit(x - 1, y - 1, pred) + self.hit(x - 1, y, pred) + self.hit(x - 1, y + 1, pred)
            + self.hit(x, y - 1, pred) + self.hit(x, y, pred) + self.hit(x, y + 1, pred)
            + self.hit(x + 1, y - 1, pred) + self.hit(x + 1, y, pred) + self.hit(x + 1, y + 1, pred)
    }

    /// Number of cells among the eight around `(x, y)` that are on the
    /// board and satisfy `pred`.
    pub open spec fn around_count(self, x: int, y: int, pred: spec_fn(Cell) -> bool) -> int {
        self.hit(x - 1, y - 1, pred) + self.hit(x - 1, y, pred) + self.hit(x - 1, y + 1, pred)
            + self.hit(x, y - 1, pred) + self.hit(x, y + 1, pred) + self.hit(x + 1, y - 1, pred)
            + self.hit(x + 1, y, pred) + self.hit(x + 1, y + 1, pred)
    }

    /// Positions that hold a mine.
    pub open spec fn mines(self) -> Set<(int, int)> {
        Set::new(|p: (int, int)| self.in_bounds(p.0, p.1) && self.at(p.0, p.1).content == CellContent::Mine)
    }

    /// Positions that carry a flag.
    pub open spec fn flags(self) -> Set<(int, int)> {
        Set::new(|p: (int, int)| self.in_bounds(p.0, p.1) && self.at(p.0, p.1).state == CellState::Flagged)
    }

    /// Positions that are covered and not flagged.
    pub open spec fn covered(self) -> Set<(int, int)> {
        Set::new(|p: (int, int)| self.in_bounds(p.0, p.1) && self.at(p.0, p.1).state == CellState::Covered)
    }

    /// A cell without a mine shows the number of mines in its 3x3 block.
    pub open spec fn number_ok(self, x: int, y: int) -> bool {
        match self.at(x, y).content {
            CellContent::Mine => true,
            CellContent::Number(k) => k == self.neighbor_count(x, y, holds_mine()),
        }
    }

    /// Every cell without a mine shows the number of mines around it.
    pub open spec fn numbers_consistent(self) -> bool {
        forall|x: int, y: int| self.in_bounds(x, y) ==> #[trigger] self.number_ok(x, y)
    }

    /// A cell as it is before mines are laid: no number, not uncovered.
    pub open spec fn untouched(self, x: int, y: int) -> bool {
        self.at(x, y).content == CellContent::Number(0) && self.at(x, y).state != CellState::Uncovered
    }

    /// No mine is laid and no cell is uncovered yet.
    pub open spec fn pristine(self) -> bool {
        forall|x: int, y: int| self.in_bounds(x, y) ==> #[trigger] self.untouched(x, y)
    }

    /// The invariant of a game: a grid of at least one cell, small enough
    /// for the counters; fewer mines than cells; the cursor on the board;
    /// the count of flags right. Before the mines are laid the board is
    /// pristine; once they are, it holds as many as it asks for, and the
    /// numbers are right.
    pub open spec fn well_formed(self) -> bool {
        &&& 0 < self.width()
        &&& 0 < self.height()
        &&& self.rectangular()
        &&& self.width() * self.height() <= u32::MAX
        &&& self.mine_count < self.width() * self.height()
        &&& self.in_bounds(self.cursor.0, self.cursor.1)
        &&& self.flag_count == self.flags().len()
        &&& if self.generated {
            self.mines().len() == self.mine_count && self.numbers_consistent()
        } else {
            self.pristine()
        }
    }

    /// Number of cells outside the 3x3 block centred on `(ax, ay)`.
    pub open spec fn cells_outside(self, ax: int, ay: int) -> int {
        self.width() * self.height() - span(ax, self.width()) * span(ay, self.height())
    }

    /// Mines can be laid with `(ax, ay)` as the anchor: enough cells lie
    /// outside the anchor's 3x3 block to take them all.
    pub open spec fn has_room(self, ax: int, ay: int) -> bool {
        self.mine_count <= self.cells_outside(ax, ay)
    }

    /// The board with the cell at `(x, y)` replaced.
    pub open spec fn with_cell(self, x: int, y: int, c: Cell) -> Board {
        Board { grid: self.grid.update(x, self.grid[x].update(y, c)), ..self }
    }

    /// The board with the state of the cell at `(x, y)` replaced.
    pub open spec fn with_state(self, x: int, y: int, s: CellState) -> Board {
        self.with_cell(x, y, Cell { state: s, ..self.at(x, y) })
    }

    /// The board with the content of the cell at `(x, y)` replaced.
    pub open spec fn with_content(self, x: int, y: int, c: CellContent) -> Board {
        self.with_cell(x, y, Cell { content: c, ..self.at(x, y) })
    }

    /// The board with the cursor at `(x, y)`, clamped to the grid.
    pub open spec fn moved_to(self, x: int, y: int) -> Board {
        Board {
            cursor: (
                if x < self.width() { x } else { self.width() - 1 },
                if y < self.height() { y } else { self.height() - 1 },
            ),
            ..self
        }
    }

    /// The board after the flag at `(x, y)` is toggled: a covered cell gets
    /// a flag, a flagged cell loses it, an uncovered cell stays.
    pub open spec fn toggled(self, x: int, y: int) -> Board {
        match self.at(x, y).state {
            CellState::Covered => Board {
                flag_count: self.flag_count + 1,
                ..self.with_state(x, y, CellState::Flagged)
            },
            CellState::Flagged => Board {
                flag_count: (self.flag_count - 1) as nat,
                ..self.with_state(x, y, CellState::Covered)
            },
            CellState::Uncovered => self,
        }
    }

    /// Same size, and each cell holds what the cell of `other` holds.
    pub open spec fn same_contents(self, other: Board) -> bool {
        &&& self.width() == other.width()
        &&& self.height() == other.height()
        &&& forall|x: int, y: int|
            #![trigger self.at(x, y)]
            #![trigger other.at(x, y)]
            self.in_bounds(x, y) ==> self.at(x, y).content == other.at(x, y).content
    }

    /// Same size, and each cell shows as the cell of `other` shows.
    pub open spec fn same_states(self, other: Board) -> bool {
        &&& self.width() == other.width()
        &&& self.height() == other.height()
        &&& forall|x: int, y: int|
            #![trigger self.at(x, y)]
            #![trigger other.at(x, y)]
            self.in_bounds(x, y) ==> self.at(x, y).state == other.at(x, y).state
    }

    /// Mines and numbers are the same on two boards with the same contents.
    pub proof fn lemma_same_contents(self, other: Board)
        requires
            self.same_contents(other),
        ensures
            self.mines() == other.mines(),
            self.numbers_consistent() == other.numbers_consistent(),
    {
        assert(self.mines() =~= other.mines());
        assert forall|x: int, y: int| self.in_bounds(x, y) implies self.number_ok(x, y)
            == other.number_ok(x, y) by {
            self.lemma_same_count(other, x, y);
        }
    }

    /// Two boards with the same contents count the same mines around a
    /// position.
    pub proof fn lemma_same_count(self, other: Board, x: int, y: int)
        requires
            self.same_contents(other),
        ensures
            self.neighbor_count(x, y, holds_mine()) == other.neighbor_count(x, y, holds_mine()),
    {
    }

    /// Flags and covered cells are the same on two boards with the same
    /// states.
    pub proof fn lemma_same_states(self, other: Board)
        requires
            self.same_states(other),
        ensures
            self.flags() == other.flags(),
            self.covered() == other.covered(),
    {
        assert(self.flags() =~= other.flags());
        assert(self.covered() =~= other.covered());
    }

    /// Replacing one cell keeps the size and every other cell.
    pub proof fn lemma_with_cell(self, x: int, y: int, c: Cell)
        requires
            self.rectangular(),
            self.in_bounds(x, y),
        ensures
            self.with_cell(x, y, c).width() == self.width(),
            self.with_cell(x, y, c).height() == self.height(),
            self.with_cell(x, y, c).rectangular(),
            self.with_cell(x, y, c).at(x, y) == c,
            forall|i: int, j: int|
                self.in_bounds(i, j) && (i != x || j != y) ==> #[trigger] self.with_cell(x, y, c).at(i, j)
                    == self.at(i, j),
    {
        let b = self.with_cell(x, y, c);
        assert(self.grid[x].len() == self.height());
        assert(b.grid[0].len() == self.height());
    }

    /// What depends on the grid alone is the same on two boards with the
    /// same grid.
    pub proof fn lemma_same_grid(self, other: Board)
        requires
            self.grid == other.grid,
        ensures
            self.mines() == other.mines(),
            self.flags() == other.flags(),
            self.covered() == other.covered(),
            self.numbers_consistent() == other.numbers_consistent(),
            self.pristine() == other.pristine(),
    {
        assert(self.mines() =~= other.mines());
        assert(self.flags() =~= other.flags());
        assert(self.covered() =~= other.covered());
        assert(self.numbers_consistent() == other.numbers_consistent()) by {
            assert forall|x: int, y: int| self.number_ok(x, y) == other.number_ok(x, y) by {}
        }
        assert(self.pristine() == other.pristine()) by {
            assert forall|x: int, y: int| self.untouched(x, y) == other.untouched(x, y) by {}
        }
    }

    /// What the status line shows: mines not yet flagged, negative once
    /// more flags than mines are set.
    pub open spec fn mines_remaining(self) -> int {
        self.mine_count - self.flag_count
    }
}

} // verus!
