//! What a reveal opens: the covered cells that can be reached from the
//! revealed cells through covered cells with no mine around them.

use vstd::prelude::*;
use crate::board::{near, Board};
use crate::cell::{holds_mine, Cell, CellContent, CellState};

verus! {

/// True when `q` lies in the 3x3 block centred on `p`.
pub open spec fn adjacent(p: (int, int), q: (int, int)) -> bool {
    near(p.0, p.1, q.0, q.1)
}

impl Board {
    /// The position is on the board and its cell is covered, not flagged.
    pub open spec fn covered_at(self, p: (int, int)) -> bool {
        self.in_bounds(p.0, p.1) && self.at(p.0, p.1).state == CellState::Covered
    }

    /// The cell at the position has no mine around it.
    pub open spec fn blank_at(self, p: (int, int)) -> bool {
        self.at(p.0, p.1).content == CellContent::Number(0)
    }

    /// The cell at the position holds a mine.
    pub open spec fn mine_at(self, p: (int, int)) -> bool {
        self.at(p.0, p.1).content == CellContent::Mine
    }

    /// A reveal of `seeds` opens `p` in at most `n` steps: `p` is covered,
    /// and it is a seed or lies next to a blank cell that is opened in
    /// fewer steps.
    pub open spec fn opens_within(self, seeds: Set<(int, int)>, p: (int, int), n: nat) -> bool
        decreases n,
    {
        &&& self.covered_at(p)
        &&& (seeds.contains(p) || (n > 0 && exists|q: (int, int)|
            #[trigger] adjacent(q, p) && self.blank_at(q) && self.opens_within(seeds, q, (n - 1) as nat)))
    }

    /// A reveal of `seeds` opens `p`.
    pub open spec fn opens(self, seeds: Set<(int, int)>, p: (int, int)) -> bool {
        exists|n: nat| self.opens_within(seeds, p, n)
    }

    /// The board after a reveal of `seeds`: the cells it opens are
    /// uncovered, and nothing else changes.
    pub open spec fn flooded(self, seeds: Set<(int, int)>) -> Board {
        Board {
            grid: Seq::new(
                self.width() as nat,
                |x: int|
                    Seq::new(
                        self.height() as nat,
                        |y: int|
                            if self.opens(seeds, (x, y)) {
                                Cell { state: CellState::Uncovered, ..self.at(x, y) }
                            } else {
                                self.at(x, y)
                            },
                    ),
            ),
            ..self
        }
    }

    /// A blank cell that is opened opens the covered cells next to it.
    pub proof fn lemma_opens_next(self, seeds: Set<(int, int)>, p: (int, int), q: (int, int))
        requires
            self.opens(seeds, p),
            self.blank_at(p),
            adjacent(p, q),
            self.covered_at(q),
        ensures
            self.opens(seeds, q),
    {
        let n = choose|n: nat| self.opens_within(seeds, p, n);
        assert(self.opens_within(seeds, p, ((n + 1) - 1) as nat));
        assert(self.opens_within(seeds, q, n + 1));
    }

    /// A covered seed is opened.
    pub proof fn lemma_opens_seed(self, seeds: Set<(int, int)>, p: (int, int))
        requires
            seeds.contains(p),
            self.covered_at(p),
        ensures
            self.opens(seeds, p),
    {
        assert(self.opens_within(seeds, p, 0));
    }

    /// A cell that is opened is covered, and it is a seed or lies next to
    /// a blank cell that is opened too.
    pub proof fn lemma_opens_from(self, seeds: Set<(int, int)>, p: (int, int))
        requires
            self.opens(seeds, p),
        ensures
            self.covered_at(p),
            seeds.contains(p) || exists|q: (int, int)|
                #[trigger] self.opens(seeds, q) && self.blank_at(q) && adjacent(q, p),
    {
        let n = choose|n: nat| self.opens_within(seeds, p, n);
        if !seeds.contains(p) {
            let q = choose|q: (int, int)|
                #[trigger] adjacent(q, p) && self.blank_at(q) && self.opens_within(seeds, q, (n - 1) as nat);
            assert(self.opens(seeds, q));
        }
    }

    /// Only covered seeds matter: what one set of seeds opens, another set
    /// with the same covered cells opens too.
    pub proof fn lemma_opens_covered_seeds(
        self,
        s: Set<(int, int)>,
        t: Set<(int, int)>,
        p: (int, int),
        n: nat,
    )
        requires
            forall|q: (int, int)| self.covered_at(q) && s.contains(q) ==> t.contains(q),
            self.opens_within(s, p, n),
        ensures
            self.opens_within(t, p, n),
        decreases n,
    {
        if !s.contains(p) {
            let q = choose|q: (int, int)|
                #[trigger] adjacent(q, p) && self.blank_at(q) && self.opens_within(s, q, (n - 1) as nat);
            self.lemma_opens_covered_seeds(s, t, q, (n - 1) as nat);
        }
    }

    /// Two sets of seeds with the same covered cells flood alike.
    pub proof fn lemma_flooded_covered_seeds(self, s: Set<(int, int)>, t: Set<(int, int)>)
        requires
            forall|q: (int, int)| self.covered_at(q) ==> (s.contains(q) <==> t.contains(q)),
        ensures
            self.flooded(s) == self.flooded(t),
    {
        assert forall|p: (int, int)| #[trigger] self.opens(s, p) == self.opens(t, p) by {
            if self.opens(s, p) {
                let n = choose|n: nat| self.opens_within(s, p, n);
                self.lemma_opens_covered_seeds(s, t, p, n);
            }
            if self.opens(t, p) {
                let n = choose|n: nat| self.opens_within(t, p, n);
                self.lemma_opens_covered_seeds(t, s, p, n);
            }
        }
        assert(self.flooded(s).grid =~~= self.flooded(t).grid);
    }

    /// On a board whose numbers are right, no cell next to a blank cell
    /// holds a mine.
    pub proof fn lemma_blank_has_no_mine_near(self, p: (int, int), q: (int, int))
        requires
            self.numbers_consistent(),
            self.in_bounds(p.0, p.1),
            self.blank_at(p),
            adjacent(p, q),
            self.in_bounds(q.0, q.1),
        ensures
            !self.mine_at(q),
    {
        assert(self.number_ok(p.0, p.1));
        if self.mine_at(q) {
            assert(self.hit(q.0, q.1, holds_mine()) == 1);
            assert(self.neighbor_count(p.0, p.1, holds_mine()) >= 1);
        }
    }

    /// A flood keeps the size, the contents, the flags and the counters,
    /// and uncovers exactly the cells that the seeds open.
    pub proof fn lemma_flooded(self, seeds: Set<(int, int)>)
        requires
            self.rectangular(),
        ensures
            self.flooded(seeds).rectangular(),
            self.flooded(seeds).same_contents(self),
            self.flooded(seeds).flags() == self.flags(),
            self.flooded(seeds).mines() == self.mines(),
            forall|x: int, y: int|
                self.in_bounds(x, y) ==> #[trigger] self.flooded(seeds).at(x, y) == (if self.opens(
                    seeds,
                    (x, y),
                ) {
                    Cell { state: CellState::Uncovered, ..self.at(x, y) }
                } else {
                    self.at(x, y)
                }),
    {
        let f = self.flooded(seeds);
        assert(f.width() == self.width());
        if self.width() > 0 {
            assert(f.grid[0].len() == self.height());
        }
        assert(f.height() == self.height());
        assert forall|x: int, y: int| self.in_bounds(x, y) implies #[trigger] f.at(x, y) == (if self.opens(
            seeds,
            (x, y),
        ) {
            Cell { state: CellState::Uncovered, ..self.at(x, y) }
        } else {
            self.at(x, y)
        }) by {
            assert(f.grid[x][y] == f.at(x, y));
        }
        assert(f.same_contents(self));
        f.lemma_same_contents(self);
        assert(f.flags() =~= self.flags()) by {
            assert forall|p: (int, int)| f.flags().contains(p) == self.flags().contains(p) by {
                if self.in_bounds(p.0, p.1) {
                    assert(f.at(p.0, p.1).state == CellState::Flagged <==> self.at(p.0, p.1).state
                        == CellState::Flagged) by {
                        if self.opens(seeds, p) {
                            self.lemma_opens_from(seeds, p);
                        }
                    }
                }
            }
        }
    }

    /// A flood of a board on which the mines are laid keeps the invariant.
    pub proof fn lemma_flooded_well_formed(self, seeds: Set<(int, int)>)
        requires
            self.well_formed(),
            self.generated,
        ensures
            self.flooded(seeds).well_formed(),
    {
        self.lemma_flooded(seeds);
        let f = self.flooded(seeds);
        f.lemma_same_contents(self);
    }
}

} // verus!
