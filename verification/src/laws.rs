//! Laws of the game, each proved from the definitions of the model.

use vstd::prelude::*;
use crate::board::{near, Board};
use crate::cell::{carries_flag, holds_mine, Cell, CellContent, CellState};
use crate::input::InputAction;
use crate::play::Status;
use crate::region::adjacent;
use crate::uncover::Outcome;

verus! {

impl Board {
    /// Right after the mines are laid, no cell of the anchor's 3x3 block
    /// holds a mine, and the anchor itself shows no mine around it.
    pub proof fn lemma_anchor_is_safe(self, laid: Board, ax: int, ay: int, x: int, y: int)
        requires
            self.generates(laid, ax, ay),
            laid.in_bounds(ax, ay),
            laid.in_bounds(x, y),
            near(ax, ay, x, y),
        ensures
            laid.at(x, y).content != CellContent::Mine,
            laid.at(ax, ay).content == CellContent::Number(0),
    {
        assert(laid.number_ok(ax, ay));
    }

    /// Right after the mines are laid, the board holds exactly as many
    /// mines as it asks for, and it keeps the invariant.
    pub proof fn lemma_mines_all_laid(self, laid: Board, ax: int, ay: int)
        requires
            self.well_formed(),
            self.generates(laid, ax, ay),
        ensures
            laid.mines().finite(),
            laid.mines().len() == laid.mine_count,
            laid.well_formed(),
    {
        laid.lemma_same_states(self);
    }

    /// Mines are laid once: on a board on which they are laid, no action
    /// changes what a cell holds, and they stay laid.
    pub proof fn lemma_layout_is_final(self, action: InputAction, next: Board, status: Status)
        requires
            self.well_formed(),
            self.generated,
            self.moves(action, next, status),
        ensures
            next.generated,
            next.same_contents(self),
            next.mines() == self.mines(),
    {
        let (x, y) = self.cursor;
        match action {
            InputAction::Move(mx, my) => {},
            InputAction::Flag => {
                self.lemma_with_cell(x, y, next.at(x, y));
                assert forall|i: int, j: int| next.in_bounds(i, j) implies (#[trigger] next.at(i, j)).content
                    == self.at(i, j).content by {}
            },
            InputAction::Reveal => {
                self.lemma_flooded(set![(x, y)]);
            },
            InputAction::RevealArea => {
                self.lemma_flooded(self.chord_seeds(x, y));
            },
            InputAction::Quit => {},
        }
        next.lemma_same_contents(self);
    }

    /// On a board on which the mines are laid, a cell without a mine
    /// shows the number of mines among the eight cells around it.
    pub proof fn lemma_number_counts_mines_around(self, x: int, y: int)
        requires
            self.well_formed(),
            self.generated,
            self.in_bounds(x, y),
            self.at(x, y).content != CellContent::Mine,
        ensures
            self.at(x, y).content == CellContent::Number(self.around_count(x, y, holds_mine()) as u8),
            0 <= self.around_count(x, y, holds_mine()) <= 8,
    {
        assert(self.number_ok(x, y));
        assert(self.hit(x, y, holds_mine()) == 0);
    }

    /// A reveal opens a mine only where the mine is itself revealed: on a
    /// board whose numbers are right, the spread from blank cells never
    /// reaches one.
    pub proof fn lemma_spread_opens_no_mine(self, seeds: Set<(int, int)>, p: (int, int))
        requires
            self.rectangular(),
            self.numbers_consistent(),
            self.opens(seeds, p),
            self.mine_at(p),
        ensures
            seeds.contains(p),
    {
        self.lemma_opens_from(seeds, p);
        if !seeds.contains(p) {
            let q = choose|q: (int, int)| #[trigger] self.opens(seeds, q) && self.blank_at(q) && adjacent(q, p);
            self.lemma_opens_from(seeds, q);
            self.lemma_blank_has_no_mine_near(q, p);
        }
    }

    /// The region that a reveal uncovers ends at numbers and flags: once
    /// a blank cell is opened, no cell around it stays covered.
    pub proof fn lemma_region_is_closed(self, seeds: Set<(int, int)>, p: (int, int), q: (int, int))
        requires
            self.rectangular(),
            self.opens(seeds, p),
            self.blank_at(p),
            adjacent(p, q),
            self.in_bounds(q.0, q.1),
        ensures
            self.flooded(seeds).at(p.0, p.1).state == CellState::Uncovered,
            self.flooded(seeds).at(q.0, q.1).state != CellState::Covered,
    {
        self.lemma_flooded(seeds);
        self.lemma_opens_from(seeds, p);
        if self.covered_at(q) {
            self.lemma_opens_next(seeds, p, q);
        }
    }

    /// The region that a reveal uncovers hangs together: a cell is
    /// uncovered by it only if it was covered and is revealed itself, or
    /// lies next to a blank cell that the reveal uncovers too.
    pub proof fn lemma_region_is_connected(self, seeds: Set<(int, int)>, x: int, y: int)
        requires
            self.rectangular(),
            self.in_bounds(x, y),
            self.flooded(seeds).at(x, y) != self.at(x, y),
        ensures
            self.at(x, y).state == CellState::Covered,
            self.flooded(seeds).at(x, y) == (Cell { state: CellState::Uncovered, ..self.at(x, y) }),
            seeds.contains((x, y)) || exists|q: (int, int)|
                #[trigger] self.opens(seeds, q) && self.blank_at(q) && adjacent(q, (x, y)),
    {
        self.lemma_flooded(seeds);
        self.lemma_opens_from(seeds, (x, y));
    }

    /// Toggling a flag twice on a cell restores the board, the count of
    /// flags with it.
    pub proof fn lemma_toggle_twice(self, x: int, y: int)
        requires
            self.well_formed(),
            self.in_bounds(x, y),
        ensures
            self.toggled(x, y).toggled(x, y) == self,
    {
        let once = self.toggled(x, y);
        let twice = once.toggled(x, y);
        self.lemma_with_cell(x, y, once.at(x, y));
        once.lemma_with_cell(x, y, twice.at(x, y));
        if self.at(x, y).state == CellState::Flagged {
            self.lemma_sets_finite();
            assert(self.flags().contains((x, y)));
        }
        assert forall|i: int| 0 <= i < self.grid.len() implies twice.grid[i] =~= self.grid[i] by {
            assert forall|j: int| 0 <= j < self.grid[i].len() implies twice.grid[i][j] == self.grid[i][j] by {
                assert(twice.at(i, j) == self.at(i, j));
            }
        }
        assert(twice.grid =~= self.grid);
    }

    /// A chord on a cell whose number is not the number of flags around
    /// it changes nothing.
    pub proof fn lemma_chord_needs_its_flags(self, x: int, y: int, k: u8)
        requires
            self.at(x, y).content == CellContent::Number(k),
            k != self.neighbor_count(x, y, carries_flag()),
        ensures
            self.area_revealed(x, y) == self,
            self.area_outcome(x, y) == Outcome::Continue,
    {
    }
}

} // verus!
