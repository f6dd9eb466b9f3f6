//! Reveals: one cell with the region it opens, and the chord around a
//! numbered cell.

use vstd::prelude::*;
use crate::board::{cell_of, cells, computes, near, Board};
use crate::cell::{carries_flag, hides_mine, Cell, CellContent, CellState};
use crate::game::Minesweeper;
use crate::region::adjacent;

verus! {

/// Result of a reveal.
#[derive(PartialEq, Eq, Structural, Copy, Clone, Debug)]
pub enum Outcome {
    /// The game goes on.
    Continue,
    /// A mine was uncovered: the game is lost.
    MineHit,
}

impl Board {
    /// The board after the cell at `(x, y)` is revealed: the cell and what
    /// it opens are uncovered.
    pub open spec fn revealed(self, x: int, y: int) -> Board {
        self.flooded(set![(x, y)])
    }

    /// A reveal of the cell at `(x, y)` hits a mine when the cell is
    /// covered and holds one.
    pub open spec fn reveal_outcome(self, x: int, y: int) -> Outcome {
        if self.covered_at((x, y)) && self.mine_at((x, y)) {
            Outcome::MineHit
        } else {
            Outcome::Continue
        }
    }

    /// This board with every cell shown as on `other`: the contents of
    /// this board under the states of `other`.
    pub open spec fn shown_as(self, other: Board) -> Board {
        Board {
            grid: Seq::new(
                self.width() as nat,
                |x: int|
                    Seq::new(
                        self.height() as nat,
                        |y: int| Cell { state: other.at(x, y).state, ..self.at(x, y) },
                    ),
            ),
            ..self
        }
    }

    /// A chord applies at `(x, y)`: the cell is uncovered, and its number
    /// is the number of flags in its 3x3 block.
    pub open spec fn chord_applies(self, x: int, y: int) -> bool {
        &&& self.at(x, y).state == CellState::Uncovered
        &&& match self.at(x, y).content {
            CellContent::Mine => false,
            CellContent::Number(k) => k == self.neighbor_count(x, y, carries_flag()),
        }
    }

    /// The cells that a chord at `(x, y)` reveals: those of the 3x3 block
    /// that are on the board and carry no flag.
    pub open spec fn chord_seeds(self, x: int, y: int) -> Set<(int, int)> {
        Set::new(
            |p: (int, int)|
                near(x, y, p.0, p.1) && self.in_bounds(p.0, p.1) && self.at(p.0, p.1).state
                    != CellState::Flagged,
        )
    }

    /// The board after a chord at `(x, y)`: where the chord applies, every
    /// cell of the block without a flag is revealed, with what it opens;
    /// where it does not, nothing changes.
    pub open spec fn area_revealed(self, x: int, y: int) -> Board {
        if self.chord_applies(x, y) {
            self.flooded(self.chord_seeds(x, y))
        } else {
            self
        }
    }

    /// A chord at `(x, y)` hits a mine when it applies and a covered cell
    /// of the block holds one.
    pub open spec fn area_outcome(self, x: int, y: int) -> Outcome {
        if self.chord_applies(x, y) && self.neighbor_count(x, y, hides_mine()) > 0 {
            Outcome::MineHit
        } else {
            Outcome::Continue
        }
    }
}

impl Minesweeper {
    /// Reveals the cell at `(x, y)`. On the first reveal of a game the
    /// mines are laid first, with `(x, y)` as the anchor. A cell that is
    /// flagged or already uncovered stays as it is. A covered cell is
    /// uncovered; where it has no mine around it, the reveal spreads to
    /// the covered cells around it, and on from each blank cell among
    /// them. The outcome is a hit when the cell itself held a mine.
    pub fn reveal_cell(&mut self, x: usize, y: usize) -> (outcome: Outcome)
        requires
            old(self).wf(),
            old(self)@.in_bounds(x as int, y as int),
            old(self)@.generated || old(self)@.has_room(x as int, y as int),
        ensures
            final(self).wf(),
            final(self)@.generated,
            ({
                let laid = final(self)@.shown_as(old(self)@);
                &&& old(self)@.generated ==> laid == old(self)@
                &&& !old(self)@.generated ==> old(self)@.generates(laid, x as int, y as int)
                &&& final(self)@ == laid.revealed(x as int, y as int)
                &&& outcome == laid.reveal_outcome(x as int, y as int)
            }),
    {
        if !self.is_generated() {
            self.generate_grid(x, y);
        }
        let ghost laid = self@;
        let c = self.cell(x, y);
        let mut work: Vec<(usize, usize)> = Vec::new();
        work.push((x, y));
        self.flood(work);
        proof {
            let seeds = cells(work@).to_set();
            assert(cells(work@)[0] == (x as int, y as int));
            assert(seeds =~= set![(x as int, y as int)]);
            laid.lemma_flooded(seeds);
            laid.lemma_flooded_well_formed(seeds);
            let back = self@.shown_as(old(self)@);
            assert forall|i: int| 0 <= i < laid.grid.len() implies back.grid[i] =~= laid.grid[i] by {
                assert forall|j: int| 0 <= j < laid.grid[i].len() implies back.grid[i][j] == laid.grid[i][j] by {
                    assert(self@.at(i, j).content == laid.at(i, j).content);
                    assert(laid.at(i, j).state == old(self)@.at(i, j).state);
                }
            }
            assert(back.grid =~= laid.grid);
            assert(back == laid);
        }
        if c.state == CellState::Covered && c.is_mine() {
            Outcome::MineHit
        } else {
            Outcome::Continue
        }
    }

    /// Reveals around the cell at `(x, y)`. This applies only to an
    /// uncovered cell whose number is the number of flags in its 3x3
    /// block, the cell itself included. Then every cell of the block
    /// that carries no flag is revealed as `reveal_cell` does, all of them
    /// whatever they hold, and the outcome is a hit when one of them held
    /// a mine. Otherwise nothing changes.
    pub fn reveal_area(&mut self, x: usize, y: usize) -> (outcome: Outcome)
        requires
            old(self).wf(),
            old(self)@.in_bounds(x as int, y as int),
        ensures
            final(self).wf(),
            final(self)@ == old(self)@.area_revealed(x as int, y as int),
            outcome == old(self)@.area_outcome(x as int, y as int),
            !old(self)@.chord_applies(x as int, y as int) ==> final(self)@ == old(self)@ && outcome
                == Outcome::Continue,
    {
        let ghost start = self@;
        let c = self.cell(x, y);
        if c.state != CellState::Uncovered {
            return Outcome::Continue;
        }
        match c.content {
            CellContent::Mine => Outcome::Continue,
            CellContent::Number(nb) => {
                let flagged = |c: Cell| -> (r: bool)
                    ensures
                        r == (c.state == CellState::Flagged),
                    { c.state.is_flagged() };
                let flags = self.count_neighbors(x, y, flagged);
                proof {
                    assert(computes(flagged, carries_flag()));
                }
                if nb != flags {
                    return Outcome::Continue;
                }
                let lethal = |c: Cell| -> (r: bool)
                    ensures
                        r == (c.state == CellState::Covered && c.content == CellContent::Mine),
                    { c.state == CellState::Covered && c.is_mine() };
                let struck = self.count_neighbors(x, y, lethal);
                proof {
                    assert(computes(lethal, hides_mine()));
                }
                let mut work: Vec<(usize, usize)> = Vec::new();
                self.push_block(x, y, &mut work);
                self.flood(work);
                proof {
                    let seeds = cells(work@).to_set();
                    assert(start.untouched(x as int, y as int) || start.generated);
                    assert forall|q: (int, int)| start.covered_at(q) implies (seeds.contains(q)
                        <==> start.chord_seeds(x as int, y as int).contains(q)) by {
                        if seeds.contains(q) {
                            let i = choose|i: int| 0 <= i < cells(work@).len() && cells(work@)[i] == q;
                            assert(q == cell_of(work[i]));
                        }
                    }
                    start.lemma_flooded_covered_seeds(seeds, start.chord_seeds(x as int, y as int));
                    start.lemma_flooded_well_formed(seeds);
                }
                if struck > 0 {
                    Outcome::MineHit
                } else {
                    Outcome::Continue
                }
            },
        }
    }

    /// Appends to `work` the covered cells of the 3x3 block centred on
    /// `(x, y)`.
    fn push_block(&self, x: usize, y: usize, work: &mut Vec<(usize, usize)>)
        requires
            self@.rectangular(),
            self@.in_bounds(x as int, y as int),
        ensures
            old(work).len() <= final(work).len(),
            forall|i: int| 0 <= i < old(work).len() ==> final(work)[i] == old(work)[i],
            forall|i: int|
                old(work).len() <= i < final(work).len() ==> self@.covered_at(cell_of(#[trigger] final(work)[i]))
                    && near(x as int, y as int, final(work)[i].0 as int, final(work)[i].1 as int),
            forall|q: (int, int)|
                near(x as int, y as int, q.0, q.1) && #[trigger] self@.covered_at(q) ==> cells(
                    final(work)@,
                ).contains(q),
    {
        let w = self.width();
        let h = self.height();
        let x_lo = if x > 0 { x - 1 } else { 0 };
        let y_lo = if y > 0 { y - 1 } else { 0 };
        let x_hi = if x + 1 < w { x + 1 } else { x };
        let y_hi = if y + 1 < h { y + 1 } else { y };
        let ghost b = self@;
        let ghost before = work@;
        let mut nx = x_lo;
        while nx <= x_hi
            invariant
                b == self@,
                b.rectangular(),
                b.in_bounds(x as int, y as int),
                w == b.width(),
                h == b.height(),
                x_lo == (if x > 0 { x - 1 } else { 0 }),
                y_lo == (if y > 0 { y - 1 } else { 0 }),
                x_hi == (if x + 1 < w { x + 1 } else { x as int }),
                y_hi == (if y + 1 < h { y + 1 } else { y as int }),
                x_lo <= nx <= x_hi + 1,
                before.len() <= work.len(),
                forall|i: int| 0 <= i < before.len() ==> work[i] == before[i],
                forall|i: int|
                    before.len() <= i < work.len() ==> b.covered_at(cell_of(#[trigger] work[i])) && near(
                        x as int,
                        y as int,
                        work[i].0 as int,
                        work[i].1 as int,
                    ),
                forall|q: (int, int)|
                    near(x as int, y as int, q.0, q.1) && q.0 < nx && #[trigger] b.covered_at(q) ==> cells(
                        work@,
                    ).contains(q),
            decreases x_hi + 1 - nx,
        {
            let mut ny = y_lo;
            while ny <= y_hi
                invariant
                    b == self@,
                    b.rectangular(),
                    b.in_bounds(x as int, y as int),
                    w == b.width(),
                    h == b.height(),
                    x_lo == (if x > 0 { x - 1 } else { 0 }),
                    y_lo == (if y > 0 { y - 1 } else { 0 }),
                    x_hi == (if x + 1 < w { x + 1 } else { x as int }),
                    y_hi == (if y + 1 < h { y + 1 } else { y as int }),
                    x_lo <= nx <= x_hi,
                    y_lo <= ny <= y_hi + 1,
                    before.len() <= work.len(),
                    forall|i: int| 0 <= i < before.len() ==> work[i] == before[i],
                    forall|i: int|
                        before.len() <= i < work.len() ==> b.covered_at(cell_of(#[trigger] work[i])) && near(
                            x as int,
                            y as int,
                            work[i].0 as int,
                            work[i].1 as int,
                        ),
                    forall|q: (int, int)|
                        near(x as int, y as int, q.0, q.1) && (q.0 < nx || (q.0 == nx && q.1 < ny))
                            && #[trigger] b.covered_at(q) ==> cells(work@).contains(q),
                decreases y_hi + 1 - ny,
            {
                let ghost prior = work@;
                if self.cell(nx, ny).state == CellState::Covered {
                    work.push((nx, ny));
                }
                proof {
                    assert forall|q: (int, int)|
                        near(x as int, y as int, q.0, q.1) && (q.0 < nx || (q.0 == nx && q.1 < ny + 1))
                            && #[trigger] b.covered_at(q) implies cells(work@).contains(q) by {
                        if q.0 == nx && q.1 == ny {
                            assert(cells(work@)[prior.len() as int] == q);
                        } else {
                            let i = choose|i: int| 0 <= i < cells(prior).len() && cells(prior)[i] == q;
                            assert(cells(work@)[i] == q);
                        }
                    }
                }
                ny = ny + 1;
            }
            nx = nx + 1;
        }
    }

    /// Uncovers every cell that the positions in `work` open.
    fn flood(&mut self, work: Vec<(usize, usize)>)
        requires
            old(self)@.rectangular(),
            forall|i: int| 0 <= i < work.len() ==> old(self)@.in_bounds(work[i].0 as int, work[i].1 as int),
        ensures
            final(self)@ == old(self)@.flooded(cells(work@).to_set()),
    {
        let ghost start = self@;
        let ghost seeds = cells(work@).to_set();
        let mut work = work;
        proof {
            assert forall|i: int| 0 <= i < cells(work@).len() implies start.in_bounds(
                (#[trigger] cells(work@)[i]).0,
                cells(work@)[i].1,
            ) && (start.covered_at(cells(work@)[i]) ==> start.opens(seeds, cells(work@)[i])) by {
                let p = cells(work@)[i];
                assert(p == cell_of(work[i]));
                assert(seeds.contains(p));
                if start.covered_at(p) {
                    start.lemma_opens_seed(seeds, p);
                }
            }
            assert forall|p: (int, int)| seeds.contains(p) implies #[trigger] settled(start, cells(work@), p) by {}
        }
        while work.len() > 0
            invariant
                flooding(start, seeds, self@, cells(work@)),
            decreases self@.covered().len(), work.len(),
        {
            let ghost now = self@;
            let ghost prior = cells(work@);
            let (x, y) = work.pop().unwrap();
            let ghost e = (x as int, y as int);
            let ghost rest = cells(work@);
            proof {
                assert(prior =~= rest.push(e));
                assert(prior[rest.len() as int] == e);
                now.lemma_sets_finite();
            }
            let c = self.cell(x, y);
            if c.state == CellState::Covered {
                self.set_state(x, y, CellState::Uncovered);
                proof {
                    lemma_open(start, seeds, now, rest, e);
                }
                if c.content == CellContent::Number(0) {
                    self.push_block(x, y, &mut work);
                }
                proof {
                    let after = cells(work@);
                    if start.blank_at(e) {
                        assert forall|i: int| 0 <= i < rest.len() implies after[i] == rest[i] by {}
                        assert forall|i: int| rest.len() <= i < after.len() implies self@.covered_at(
                            #[trigger] after[i],
                        ) && adjacent(e, after[i]) by {
                            assert(after[i] == cell_of(work[i]));
                        }
                    } else {
                        assert(after =~= rest);
                    }
                    lemma_pushed(start, seeds, self@, rest, e, after);
                }
            } else {
                proof {
                    lemma_skip(start, seeds, now, rest, e);
                }
            }
        }
        proof {
            assert(cells(work@) =~= Seq::<(int, int)>::empty());
            lemma_finish(start, seeds, self@);
        }
    }
}

// What the flood keeps true while it runs, and why that makes its result the
// flooded board.

/// `p` was covered when the flood began and is uncovered now.
spec fn opened(start: Board, now: Board, p: (int, int)) -> bool {
    start.covered_at(p) && now.at(p.0, p.1).state == CellState::Uncovered
}

/// `now` is `start` with some covered cells uncovered.
spec fn advanced(start: Board, now: Board) -> bool {
    &&& start.rectangular()
    &&& now.rectangular()
    &&& now.same_contents(start)
    &&& now.generated == start.generated
    &&& now.mine_count == start.mine_count
    &&& now.flag_count == start.flag_count
    &&& now.cursor == start.cursor
    &&& forall|x: int, y: int|
        start.in_bounds(x, y) ==> (#[trigger] now.at(x, y)).state == start.at(x, y).state || opened(
            start,
            now,
            (x, y),
        )
}

/// Every cell uncovered so far is one that the seeds open.
spec fn sound(start: Board, seeds: Set<(int, int)>, now: Board) -> bool {
    forall|p: (int, int)| #[trigger] opened(start, now, p) ==> start.opens(seeds, p)
}

/// Every position that waits is on the board, and the seeds open it if it
/// was covered.
spec fn justified(start: Board, seeds: Set<(int, int)>, work: Seq<(int, int)>) -> bool {
    forall|i: int|
        0 <= i < work.len() ==> start.in_bounds((#[trigger] work[i]).0, work[i].1) && (start.covered_at(
            work[i],
        ) ==> start.opens(seeds, work[i]))
}

/// `q` needs no more attention, or waits for it.
spec fn settled(now: Board, work: Seq<(int, int)>, q: (int, int)) -> bool {
    !now.covered_at(q) || work.contains(q)
}

/// Every seed is settled.
spec fn seeds_settled(seeds: Set<(int, int)>, now: Board, work: Seq<(int, int)>) -> bool {
    forall|p: (int, int)| seeds.contains(p) ==> #[trigger] settled(now, work, p)
}

/// Around every blank cell uncovered so far, but for `except`, every cell
/// is settled.
spec fn frontier_settled(start: Board, now: Board, work: Seq<(int, int)>, except: Set<(int, int)>) -> bool {
    forall|c: (int, int), q: (int, int)|
        #![trigger opened(start, now, c), settled(now, work, q)]
        opened(start, now, c) && !except.contains(c) && start.blank_at(c) && adjacent(c, q) ==> settled(
            now,
            work,
            q,
        )
}

/// What holds each time the flood takes a position from the list.
spec fn flooding(start: Board, seeds: Set<(int, int)>, now: Board, work: Seq<(int, int)>) -> bool {
    &&& advanced(start, now)
    &&& sound(start, seeds, now)
    &&& justified(start, seeds, work)
    &&& seeds_settled(seeds, now, work)
    &&& frontier_settled(start, now, work, Set::empty())
}

/// A position that is not covered is dropped from the list.
proof fn lemma_skip(start: Board, seeds: Set<(int, int)>, now: Board, rest: Seq<(int, int)>, e: (int, int))
    requires
        flooding(start, seeds, now, rest.push(e)),
        !now.covered_at(e),
    ensures
        flooding(start, seeds, now, rest),
{
    let work = rest.push(e);
    assert forall|i: int| 0 <= i < rest.len() implies start.in_bounds((#[trigger] rest[i]).0, rest[i].1) && (
    start.covered_at(rest[i]) ==> start.opens(seeds, rest[i])) by {
        assert(work[i] == rest[i]);
    }
    assert forall|q: (int, int)| settled(now, work, q) implies settled(now, rest, q) by {
        if now.covered_at(q) {
            let i = choose|i: int| 0 <= i < work.len() && work[i] == q;
            assert(rest[i] == q);
        }
    }
    assert forall|p: (int, int)| seeds.contains(p) implies #[trigger] settled(now, rest, p) by {
        assert(settled(now, work, p));
    }
    assert forall|c: (int, int), q: (int, int)|
        #![trigger opened(start, now, c), settled(now, rest, q)]
        opened(start, now, c) && start.blank_at(c) && adjacent(c, q) implies settled(now, rest, q) by {
        assert(settled(now, work, q));
    }
}

/// A covered position taken from the list is uncovered.
proof fn lemma_open(start: Board, seeds: Set<(int, int)>, now: Board, rest: Seq<(int, int)>, e: (int, int))
    requires
        flooding(start, seeds, now, rest.push(e)),
        now.covered_at(e),
    ensures
        ({
            let next = now.with_state(e.0, e.1, CellState::Uncovered);
            &&& advanced(start, next)
            &&& sound(start, seeds, next)
            &&& justified(start, seeds, rest)
            &&& seeds_settled(seeds, next, rest)
            &&& frontier_settled(start, next, rest, set![e])
            &&& start.opens(seeds, e)
            &&& opened(start, next, e)
            &&& next.covered() == now.covered().remove(e)
            &&& now.covered().contains(e)
        }),
{
    let work = rest.push(e);
    let next = now.with_state(e.0, e.1, CellState::Uncovered);
    now.lemma_with_cell(e.0, e.1, Cell { state: CellState::Uncovered, ..now.at(e.0, e.1) });
    assert(work[rest.len() as int] == e);
    assert(now.at(e.0, e.1).state == start.at(e.0, e.1).state || opened(start, now, e));
    assert(start.covered_at(e));
    assert(start.opens(seeds, e));
    assert(next.at(e.0, e.1).state == CellState::Uncovered);
    assert forall|x: int, y: int| start.in_bounds(x, y) implies (#[trigger] next.at(x, y)).state == start.at(
        x,
        y,
    ).state || opened(start, next, (x, y)) by {
        if x != e.0 || y != e.1 {
            assert(next.at(x, y) == now.at(x, y));
        }
    }
    assert forall|x: int, y: int| next.in_bounds(x, y) implies next.at(x, y).content == start.at(x, y).content by {
        if x != e.0 || y != e.1 {
            assert(next.at(x, y) == now.at(x, y));
        }
    }
    assert(advanced(start, next));
    assert forall|p: (int, int)| #[trigger] opened(start, next, p) implies start.opens(seeds, p) by {
        if p != e {
            assert(next.at(p.0, p.1) == now.at(p.0, p.1));
            assert(opened(start, now, p));
        }
    }
    assert forall|i: int| 0 <= i < rest.len() implies start.in_bounds((#[trigger] rest[i]).0, rest[i].1) && (
    start.covered_at(rest[i]) ==> start.opens(seeds, rest[i])) by {
        assert(work[i] == rest[i]);
    }
    assert forall|q: (int, int)| settled(now, work, q) implies settled(next, rest, q) by {
        if next.covered_at(q) {
            assert(q != e);
            assert(next.at(q.0, q.1) == now.at(q.0, q.1));
            let i = choose|i: int| 0 <= i < work.len() && work[i] == q;
            assert(rest[i] == q);
        }
    }
    assert forall|p: (int, int)| seeds.contains(p) implies #[trigger] settled(next, rest, p) by {
        assert(settled(now, work, p));
    }
    assert forall|c: (int, int), q: (int, int)|
        #![trigger opened(start, next, c), settled(next, rest, q)]
        opened(start, next, c) && !set![e].contains(c) && start.blank_at(c) && adjacent(c, q) implies settled(
        next,
        rest,
        q,
    ) by {
        assert(c != e);
        assert(next.at(c.0, c.1) == now.at(c.0, c.1));
        assert(opened(start, now, c));
        assert(settled(now, work, q));
    }
    assert(next.covered() =~= now.covered().remove(e)) by {
        assert forall|p: (int, int)| next.covered().contains(p) == now.covered().remove(e).contains(p) by {
            if now.in_bounds(p.0, p.1) && p != e {
                assert(next.at(p.0, p.1) == now.at(p.0, p.1));
            }
        }
    }
}

/// Once the cells around a newly uncovered blank cell wait in the list,
/// the flood can go on.
proof fn lemma_pushed(
    start: Board,
    seeds: Set<(int, int)>,
    now: Board,
    rest: Seq<(int, int)>,
    e: (int, int),
    work: Seq<(int, int)>,
)
    requires
        advanced(start, now),
        sound(start, seeds, now),
        justified(start, seeds, rest),
        seeds_settled(seeds, now, rest),
        frontier_settled(start, now, rest, set![e]),
        start.opens(seeds, e),
        start.blank_at(e) ==> {
            &&& rest.len() <= work.len()
            &&& forall|i: int| 0 <= i < rest.len() ==> work[i] == rest[i]
            &&& forall|i: int|
                rest.len() <= i < work.len() ==> now.covered_at(#[trigger] work[i]) && adjacent(e, work[i])
            &&& forall|q: (int, int)| adjacent(e, q) && #[trigger] now.covered_at(q) ==> work.contains(q)
        },
        !start.blank_at(e) ==> work == rest,
    ensures
        flooding(start, seeds, now, work),
{
    if start.blank_at(e) {
        assert forall|i: int| 0 <= i < work.len() implies start.in_bounds((#[trigger] work[i]).0, work[i].1) && (
        start.covered_at(work[i]) ==> start.opens(seeds, work[i])) by {
            if i < rest.len() {
                assert(work[i] == rest[i]);
            } else {
                assert(now.covered_at(work[i]));
                if start.covered_at(work[i]) {
                    start.lemma_opens_next(seeds, e, work[i]);
                }
            }
        }
        assert forall|q: (int, int)| settled(now, rest, q) implies settled(now, work, q) by {
            if now.covered_at(q) {
                let i = choose|i: int| 0 <= i < rest.len() && rest[i] == q;
                assert(work[i] == q);
            }
        }
        assert forall|p: (int, int)| seeds.contains(p) implies #[trigger] settled(now, work, p) by {
            assert(settled(now, rest, p));
        }
        assert forall|c: (int, int), q: (int, int)|
            #![trigger opened(start, now, c), settled(now, work, q)]
            opened(start, now, c) && start.blank_at(c) && adjacent(c, q) implies settled(now, work, q) by {
            if c != e {
                assert(settled(now, rest, q));
            }
        }
    } else {
        assert forall|c: (int, int), q: (int, int)|
            #![trigger opened(start, now, c), settled(now, work, q)]
            opened(start, now, c) && start.blank_at(c) && adjacent(c, q) implies settled(now, work, q) by {
            assert(c != e);
            assert(settled(now, rest, q));
        }
    }
}

/// When nothing waits, every cell that the seeds open within `n` steps is
/// uncovered.
proof fn lemma_complete(start: Board, seeds: Set<(int, int)>, now: Board, p: (int, int), n: nat)
    requires
        flooding(start, seeds, now, Seq::empty()),
        start.opens_within(seeds, p, n),
    ensures
        opened(start, now, p),
    decreases n,
{
    let none = Seq::<(int, int)>::empty();
    assert(now.at(p.0, p.1).state == start.at(p.0, p.1).state || opened(start, now, p));
    if seeds.contains(p) {
        assert(settled(now, none, p));
    } else {
        let q = choose|q: (int, int)|
            #[trigger] adjacent(q, p) && start.blank_at(q) && start.opens_within(seeds, q, (n - 1) as nat);
        lemma_complete(start, seeds, now, q, (n - 1) as nat);
        assert(opened(start, now, q) && start.blank_at(q) && adjacent(q, p) ==> settled(now, none, p));
    }
}

/// When nothing waits, the board is the flooded board.
proof fn lemma_finish(start: Board, seeds: Set<(int, int)>, now: Board)
    requires
        flooding(start, seeds, now, Seq::empty()),
    ensures
        now == start.flooded(seeds),
{
    let f = start.flooded(seeds);
    start.lemma_flooded(seeds);
    assert forall|x: int, y: int| start.in_bounds(x, y) implies now.at(x, y) == f.at(x, y) by {
        let p = (x, y);
        assert(now.at(x, y).state == start.at(x, y).state || opened(start, now, p));
        if start.opens(seeds, p) {
            let n = choose|n: nat| start.opens_within(seeds, p, n);
            lemma_complete(start, seeds, now, p, n);
        } else {
            if opened(start, now, p) {
                assert(start.opens(seeds, p));
            }
        }
    }
    assert forall|x: int| 0 <= x < now.grid.len() implies now.grid[x] =~= f.grid[x] by {
        assert forall|y: int| 0 <= y < now.grid[x].len() implies now.grid[x][y] == f.grid[x][y] by {
            assert(now.at(x, y) == f.at(x, y));
        }
    }
    assert(now.grid =~= f.grid);
}

} // verus!
