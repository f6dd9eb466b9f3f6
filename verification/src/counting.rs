//! Finite sets of board positions and their sizes.

use vstd::prelude::*;
use vstd::set_lib::{lemma_len_subset, lemma_set_disjoint_lens, lemma_set_subset_finite};
use crate::board::{near, span, Board};

verus! {

/// All positions of a `w` by `h` grid.
pub open spec fn positions(w: int, h: int) -> Set<(int, int)> {
    Set::new(|p: (int, int)| 0 <= p.0 < w && 0 <= p.1 < h)
}

/// The positions `(x, y)` with `x0 <= x < x1` and `y0 <= y < y1`.
pub open spec fn rect(x0: int, x1: int, y0: int, y1: int) -> Set<(int, int)> {
    Set::new(|p: (int, int)| x0 <= p.0 < x1 && y0 <= p.1 < y1)
}

/// One column of a rectangle holds as many positions as it is high.
proof fn lemma_column(x: int, y0: int, y1: int)
    requires
        y0 <= y1,
    ensures
        rect(x, x + 1, y0, y1).finite(),
        rect(x, x + 1, y0, y1).len() == y1 - y0,
    decreases y1 - y0,
{
    if y0 == y1 {
        assert(rect(x, x + 1, y0, y1) =~= Set::empty());
    } else {
        lemma_column(x, y0, y1 - 1);
        assert(rect(x, x + 1, y0, y1) =~= rect(x, x + 1, y0, y1 - 1).insert((x, y1 - 1)));
    }
}

/// A rectangle is finite and holds width times height positions.
pub proof fn lemma_rect(x0: int, x1: int, y0: int, y1: int)
    requires
        x0 <= x1,
        y0 <= y1,
    ensures
        rect(x0, x1, y0, y1).finite(),
        rect(x0, x1, y0, y1).len() == (x1 - x0) * (y1 - y0),
    decreases x1 - x0,
{
    if x0 == x1 {
        assert(rect(x0, x1, y0, y1) =~= Set::empty());
        assert((x1 - x0) * (y1 - y0) == 0) by (nonlinear_arith)
            requires
                x1 - x0 == 0,
        ;
    } else {
        lemma_rect(x0, x1 - 1, y0, y1);
        lemma_column(x1 - 1, y0, y1);
        let a = rect(x0, x1 - 1, y0, y1);
        let b = rect(x1 - 1, x1, y0, y1);
        assert(rect(x0, x1, y0, y1) =~= a + b);
        assert(a.disjoint(b));
        lemma_set_disjoint_lens(a, b);
        assert((x1 - 1 - x0) * (y1 - y0) + (y1 - y0) == (x1 - x0) * (y1 - y0)) by (nonlinear_arith);
    }
}

/// The positions of a grid are finite, and there are width times height
/// of them.
pub proof fn lemma_positions(w: int, h: int)
    requires
        0 <= w,
        0 <= h,
    ensures
        positions(w, h).finite(),
        positions(w, h).len() == w * h,
{
    lemma_rect(0, w, 0, h);
    assert(positions(w, h) =~= rect(0, w, 0, h));
}

/// A set of positions of a grid is finite and no larger than the grid.
pub proof fn lemma_within_grid(s: Set<(int, int)>, w: int, h: int)
    requires
        0 <= w,
        0 <= h,
        s.subset_of(positions(w, h)),
    ensures
        s.finite(),
        s.len() <= w * h,
{
    lemma_positions(w, h);
    lemma_set_subset_finite(positions(w, h), s);
    lemma_len_subset(s, positions(w, h));
}

impl Board {
    /// Positions of the board outside the 3x3 block centred on `(ax, ay)`.
    pub open spec fn outside(self, ax: int, ay: int) -> Set<(int, int)> {
        Set::new(|p: (int, int)| self.in_bounds(p.0, p.1) && !near(ax, ay, p.0, p.1))
    }

    /// The sets of mines, of flags and of covered cells are finite and no
    /// larger than the board.
    pub proof fn lemma_sets_finite(self)
        requires
            0 <= self.width(),
            0 <= self.height(),
        ensures
            self.mines().finite(),
            self.mines().len() <= self.width() * self.height(),
            self.flags().finite(),
            self.flags().len() <= self.width() * self.height(),
            self.covered().finite(),
            self.covered().len() <= self.width() * self.height(),
    {
        lemma_within_grid(self.mines(), self.width(), self.height());
        lemma_within_grid(self.flags(), self.width(), self.height());
        lemma_within_grid(self.covered(), self.width(), self.height());
    }

    /// The closed form `cells_outside` counts the positions outside the
    /// anchor's block.
    pub proof fn lemma_outside_len(self, ax: int, ay: int)
        requires
            self.in_bounds(ax, ay),
        ensures
            self.outside(ax, ay).finite(),
            self.outside(ax, ay).len() == self.cells_outside(ax, ay),
    {
        let w = self.width();
        let h = self.height();
        let x0 = if ax - 1 < 0 { 0 } else { ax - 1 };
        let x1 = if ax + 2 > w { w } else { ax + 2 };
        let y0 = if ay - 1 < 0 { 0 } else { ay - 1 };
        let y1 = if ay + 2 > h { h } else { ay + 2 };
        let zone = rect(x0, x1, y0, y1);
        lemma_rect(x0, x1, y0, y1);
        lemma_positions(w, h);
        assert(x1 - x0 == span(ax, w));
        assert(y1 - y0 == span(ay, h));
        assert(zone.subset_of(positions(w, h)));
        assert(self.outside(ax, ay) =~= positions(w, h).difference(zone));
        vstd::set_lib::lemma_len_difference(positions(w, h), zone);
        vstd::set_lib::lemma_len_intersect(positions(w, h), zone);
        assert(positions(w, h).intersect(zone) =~= zone);
        vstd::set_lib::lemma_set_intersect_union_lens(positions(w, h).difference(zone), zone);
        assert(positions(w, h).difference(zone) + zone =~= positions(w, h));
        assert(positions(w, h).difference(zone).intersect(zone) =~= Set::empty());
    }
}

} // verus!
