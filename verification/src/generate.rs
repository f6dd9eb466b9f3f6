//! Laying the mines: a random draw of positions away from the anchor, and
//! the numbers that the other cells then show.

use vstd::prelude::*;
use crate::board::{cells, computes, near, span, Board};
use crate::cell::{holds_mine, Cell, CellContent};
use crate::game::Minesweeper;

verus! {

/// `rand::rngs::ThreadRng`, the random number generator that `rand` keeps
/// for each thread. The library hands it on and looks at nothing inside.
#[verifier::external_type_specification]
#[verifier::external_body]
pub struct ExThreadRng(rand::rngs::ThreadRng);

/// `rand::thread_rng` hands out the generator of the current thread.
/// Nothing is claimed of the generator. The call fails only where the
/// operating system cannot seed it.
pub assume_specification[ rand::thread_rng ]() -> (rng: rand::rngs::ThreadRng);

/// Draws a number with `rand::Rng::gen_range` on the range `0..n`. That
/// function panics on an empty range, so `n` must be positive. It
/// promises a number of the range, and this is all that is claimed: which
/// number comes is left open, and two draws may differ.
#[verifier::external_body]
fn random_below(rng: &mut rand::rngs::ThreadRng, n: usize) -> (r: usize)
    requires
        n > 0,
    ensures
        r < n,
{
    rand::Rng::gen_range(rng, 0..n)
}

/// True when `(x, y)` lies in the 3x3 block centred on `(ax, ay)`.
pub fn is_near(ax: usize, ay: usize, x: usize, y: usize) -> (r: bool)
    ensures
        r == near(ax as int, ay as int, x as int, y as int),
{
    let dx = if x < ax { ax - x } else { x - ax };
    let dy = if y < ay { ay - y } else { y - ay };
    dx <= 1 && dy <= 1
}

/// The smaller of `len` and 3: the widest that a 3x3 block is on a side of
/// that length.
pub open spec fn widest_span(len: int) -> int {
    if len < 3 {
        len
    } else {
        3
    }
}

impl Board {
    /// `mines` can be laid with `(ax, ay)` as the anchor: it holds the
    /// number of mines that the board asks for, each on the board and
    /// outside the anchor's 3x3 block, and no position twice.
    pub open spec fn accepts_layout(self, ax: int, ay: int, mines: Seq<(int, int)>) -> bool {
        &&& mines.len() == self.mine_count
        &&& mines.no_duplicates()
        &&& forall|i: int|
            0 <= i < mines.len() ==> {
                &&& self.in_bounds((#[trigger] mines[i]).0, mines[i].1)
                &&& !near(ax, ay, mines[i].0, mines[i].1)
            }
    }

    /// `laid` is this board with mines at the positions `mines` and with
    /// the numbers filled in: the states, the cursor and the counters
    /// stay, the mines lie at `mines` and nowhere else, and every other
    /// cell shows the number of mines around it.
    pub open spec fn lays(self, laid: Board, mines: Set<(int, int)>) -> bool {
        &&& laid.generated
        &&& laid.mine_count == self.mine_count
        &&& laid.flag_count == self.flag_count
        &&& laid.cursor == self.cursor
        &&& laid.rectangular()
        &&& laid.same_states(self)
        &&& laid.mines() == mines
        &&& laid.numbers_consistent()
    }

    /// `laid` is this board after mines were laid with `(ax, ay)` as the
    /// anchor: as many mines as the board asks for, none of them in the
    /// anchor's 3x3 block, and the numbers filled in.
    pub open spec fn generates(self, laid: Board, ax: int, ay: int) -> bool {
        &&& self.lays(laid, laid.mines())
        &&& laid.mines().finite()
        &&& laid.mines().len() == self.mine_count
        &&& forall|x: int, y: int|
            laid.in_bounds(x, y) && near(ax, ay, x, y) ==> (#[trigger] laid.at(x, y)).content
                != CellContent::Mine
    }

    /// Every position of the board can be the anchor when mines are laid.
    pub open spec fn roomy(self) -> bool {
        forall|x: int, y: int| self.in_bounds(x, y) ==> #[trigger] self.has_room(x, y)
    }

    /// Same size, and a cell holds a mine where the cell of `other` does.
    pub open spec fn same_mines(self, other: Board) -> bool {
        &&& self.width() == other.width()
        &&& self.height() == other.height()
        &&& forall|x: int, y: int|
            #![trigger self.at(x, y)]
            #![trigger other.at(x, y)]
            self.in_bounds(x, y) ==> (self.at(x, y).content == CellContent::Mine) == (other.at(x, y).content
                == CellContent::Mine)
    }

    /// Two boards with mines at the same places count the same mines
    /// around a position.
    pub proof fn lemma_same_mines(self, other: Board, x: int, y: int)
        requires
            self.same_mines(other),
        ensures
            self.neighbor_count(x, y, holds_mine()) == other.neighbor_count(x, y, holds_mine()),
            self.mines() == other.mines(),
    {
        assert(self.mines() =~= other.mines());
    }

    /// Every position can be the anchor exactly when the widest block
    /// leaves room for the mines.
    pub proof fn lemma_roomy(self)
        requires
            0 < self.width(),
            0 < self.height(),
        ensures
            self.roomy() <==> self.mine_count <= self.width() * self.height() - widest_span(self.width())
                * widest_span(self.height()),
    {
        let w = self.width();
        let h = self.height();
        let a = widest_span(w);
        let b = widest_span(h);
        if self.roomy() {
            let x = if w >= 2 { 1int } else { 0int };
            let y = if h >= 2 { 1int } else { 0int };
            assert(self.has_room(x, y));
            assert(span(x, w) == a);
            assert(span(y, h) == b);
        }
        if self.mine_count <= w * h - a * b {
            assert forall|x: int, y: int| self.in_bounds(x, y) implies #[trigger] self.has_room(x, y) by {
                let c = span(x, w);
                let d = span(y, h);
                assert(c * d <= a * b) by (nonlinear_arith)
                    requires
                        0 <= c <= a,
                        0 <= d <= b,
                ;
            }
        }
    }
}

/// Position `(x, y)` comes before `(nx, ny)`, columns first.
spec fn before(x: int, y: int, nx: int, ny: int) -> bool {
    x < nx || (x == nx && y < ny)
}

/// How many of `c - 1`, `c`, `c + 1` fall in `0..len`, for `c` in that
/// range.
fn span_of(c: usize, len: usize) -> (n: usize)
    requires
        c < len,
    ensures
        n == span(c as int, len as int),
        1 <= n <= 3,
        n <= len,
{
    let below: usize = if c > 0 { 1 } else { 0 };
    let above: usize = if c + 1 < len { 1 } else { 0 };
    below + 1 + above
}

impl Minesweeper {
    /// True when mines can be laid with `(ax, ay)` as the anchor: enough
    /// cells lie outside the anchor's 3x3 block to take them all.
    pub fn has_room(&self, ax: usize, ay: usize) -> (r: bool)
        requires
            self.wf(),
            self@.in_bounds(ax as int, ay as int),
        ensures
            r == self@.has_room(ax as int, ay as int),
    {
        let w = self.width();
        let h = self.height();
        let zw = span_of(ax, w);
        let zh = span_of(ay, h);
        assert(zw * zh <= w * h && zw * zh <= 9) by (nonlinear_arith)
            requires
                1 <= zw <= 3,
                1 <= zh <= 3,
                zw <= w,
                zh <= h,
        ;
        self.mine_count() as usize <= w * h - zw * zh
    }

    /// True when mines can be laid with any position as the anchor.
    pub fn is_roomy(&self) -> (r: bool)
        requires
            self.wf(),
        ensures
            r == self@.roomy(),
    {
        let w = self.width();
        let h = self.height();
        let a: usize = if w < 3 { w } else { 3 };
        let b: usize = if h < 3 { h } else { 3 };
        proof {
            self@.lemma_roomy();
        }
        assert(a * b <= w * h && a * b <= 9) by (nonlinear_arith)
            requires
                1 <= a <= 3,
                1 <= b <= 3,
                a <= w,
                b <= h,
        ;
        self.mine_count() as usize <= w * h - a * b
    }

    /// The positions outside the 3x3 block centred on `(ax, ay)`, each
    /// once.
    fn outside_cells(&self, ax: usize, ay: usize) -> (found: Vec<(usize, usize)>)
        requires
            self@.rectangular(),
            self@.in_bounds(ax as int, ay as int),
        ensures
            cells(found@).no_duplicates(),
            cells(found@).to_set() == self@.outside(ax as int, ay as int),
    {
        let w = self.width();
        let h = self.height();
        let ghost b = self@;
        let mut found: Vec<(usize, usize)> = Vec::new();
        let mut x: usize = 0;
        while x < w
            invariant
                b == self@,
                w == b.width(),
                h == b.height(),
                x <= w,
                cells(found@).no_duplicates(),
                forall|i: int|
                    0 <= i < found.len() ==> b.outside(ax as int, ay as int).contains(
                        #[trigger] cells(found@)[i],
                    ) && cells(found@)[i].0 < x,
                forall|q: (int, int)|
                    #[trigger] b.outside(ax as int, ay as int).contains(q) && q.0 < x ==> cells(
                        found@,
                    ).contains(q),
            decreases w - x,
        {
            let mut y: usize = 0;
            while y < h
                invariant
                    b == self@,
                    w == b.width(),
                    h == b.height(),
                    x < w,
                    y <= h,
                    cells(found@).no_duplicates(),
                    forall|i: int|
                        0 <= i < found.len() ==> b.outside(ax as int, ay as int).contains(
                            #[trigger] cells(found@)[i],
                        ) && before(cells(found@)[i].0, cells(found@)[i].1, x as int, y as int),
                    forall|q: (int, int)|
                        #[trigger] b.outside(ax as int, ay as int).contains(q) && before(
                            q.0,
                            q.1,
                            x as int,
                            y as int,
                        ) ==> cells(found@).contains(q),
                decreases h - y,
            {
                let ghost prior = cells(found@);
                if !is_near(ax, ay, x, y) {
                    found.push((x, y));
                    proof {
                        assert(cells(found@) =~= prior.push((x as int, y as int)));
                    }
                }
                proof {
                    let now = cells(found@);
                    assert forall|q: (int, int)|
                        #[trigger] b.outside(ax as int, ay as int).contains(q) && before(
                            q.0,
                            q.1,
                            x as int,
                            y + 1,
                        ) implies now.contains(q) by {
                        if q.0 == x && q.1 == y {
                            assert(now[prior.len() as int] == q);
                        } else {
                            let i = choose|i: int| 0 <= i < prior.len() && prior[i] == q;
                            assert(now[i] == q);
                        }
                    }
                }
                y = y + 1;
            }
            x = x + 1;
        }
        proof {
            assert(cells(found@).to_set() =~= b.outside(ax as int, ay as int));
        }
        found
    }

    /// Draws at random the positions of the mines: as many as the board
    /// asks for, no two the same, all outside the 3x3 block centred on
    /// `(ax, ay)`. Each mine is drawn evenly from the positions that are
    /// still free.
    fn draw_mines(&self, ax: usize, ay: usize) -> (picks: Vec<(usize, usize)>)
        requires
            self@.rectangular(),
            self@.in_bounds(ax as int, ay as int),
            self@.has_room(ax as int, ay as int),
        ensures
            self@.accepts_layout(ax as int, ay as int, cells(picks@)),
    {
        let ghost b = self@;
        let ghost free = b.outside(ax as int, ay as int);
        let mut cands = self.outside_cells(ax, ay);
        proof {
            cells(cands@).unique_seq_to_set();
            b.lemma_outside_len(ax as int, ay as int);
        }
        let want = self.mine_count();
        let mut rng = rand::thread_rng();
        let mut picks: Vec<(usize, usize)> = Vec::new();
        let mut i: u32 = 0;
        while i < want
            invariant
                i <= want,
                want == b.mine_count,
                picks.len() == i,
                cands.len() + i >= want,
                cells(cands@).no_duplicates(),
                cells(picks@).no_duplicates(),
                forall|j: int| 0 <= j < cands.len() ==> free.contains(#[trigger] cells(cands@)[j]),
                forall|k: int| 0 <= k < picks.len() ==> free.contains(#[trigger] cells(picks@)[k]),
                forall|j: int, k: int|
                    0 <= j < cands.len() && 0 <= k < picks.len() ==> #[trigger] cells(cands@)[j]
                        != #[trigger] cells(picks@)[k],
            decreases want - i,
        {
            let ghost old_cands = cells(cands@);
            let ghost old_picks = cells(picks@);
            let r = random_below(&mut rng, cands.len());
            let p = cands.swap_remove(r);
            picks.push(p);
            proof {
                let new_cands = cells(cands@);
                let new_picks = cells(picks@);
                let last = old_cands.len() - 1;
                let from = |j: int| if j == r { last } else { j };
                assert(new_picks =~= old_picks.push(old_cands[r as int]));
                assert forall|j: int, k: int| 0 <= j < k < new_cands.len() implies new_cands[j] != new_cands[k] by {
                    assert(new_cands[j] == old_cands[from(j)]);
                    assert(new_cands[k] == old_cands[from(k)]);
                }
                assert forall|j: int, k: int| 0 <= j < k < new_picks.len() implies new_picks[j] != new_picks[k] by {
                    if k == old_picks.len() {
                        assert(old_cands[r as int] != old_picks[j]);
                    }
                }
                assert forall|j: int| 0 <= j < new_cands.len() implies free.contains(#[trigger] new_cands[j]) by {
                    assert(new_cands[j] == old_cands[from(j)]);
                }
                assert forall|j: int, k: int| 0 <= j < new_cands.len() && 0 <= k < new_picks.len() implies
                    #[trigger] new_cands[j] != #[trigger] new_picks[k] by {
                    assert(new_cands[j] == old_cands[from(j)]);
                    if k == old_picks.len() {
                        assert(new_picks[k] == old_cands[r as int]);
                    } else {
                        assert(new_picks[k] == old_picks[k]);
                    }
                }
            }
            i = i + 1;
        }
        picks
    }

    /// Gives every cell the content of a cell before mines are laid.
    fn clear_contents(&mut self)
        requires
            old(self)@.rectangular(),
            0 < old(self)@.width(),
        ensures
            final(self)@.rectangular(),
            final(self)@.same_states(old(self)@),
            forall|x: int, y: int|
                final(self)@.in_bounds(x, y) ==> (#[trigger] final(self)@.at(x, y)).content
                    == CellContent::Number(0),
            final(self)@.generated == old(self)@.generated,
            final(self)@.mine_count == old(self)@.mine_count,
            final(self)@.flag_count == old(self)@.flag_count,
            final(self)@.cursor == old(self)@.cursor,
    {
        let w = self.width();
        let h = self.height();
        let ghost start = self@;
        let mut x: usize = 0;
        while x < w
            invariant
                w == start.width(),
                h == start.height(),
                x <= w,
                self@.rectangular(),
                self@.same_states(start),
                self@.generated == start.generated,
                self@.mine_count == start.mine_count,
                self@.flag_count == start.flag_count,
                self@.cursor == start.cursor,
                forall|i: int, j: int|
                    self@.in_bounds(i, j) && i < x ==> (#[trigger] self@.at(i, j)).content
                        == CellContent::Number(0),
            decreases w - x,
        {
            let mut y: usize = 0;
            while y < h
                invariant
                    w == start.width(),
                    h == start.height(),
                    x < w,
                    y <= h,
                    self@.rectangular(),
                    self@.same_states(start),
                    self@.generated == start.generated,
                    self@.mine_count == start.mine_count,
                    self@.flag_count == start.flag_count,
                    self@.cursor == start.cursor,
                    forall|i: int, j: int|
                        self@.in_bounds(i, j) && before(i, j, x as int, y as int) ==> (#[trigger] self@.at(
                            i,
                            j,
                        )).content == CellContent::Number(0),
                decreases h - y,
            {
                let ghost prior = self@;
                self.set_content(x, y, CellContent::Number(0));
                proof {
                    prior.lemma_with_cell(
                        x as int,
                        y as int,
                        Cell { content: CellContent::Number(0), ..prior.at(x as int, y as int) },
                    );
                    assert forall|i: int, j: int| self@.in_bounds(i, j) implies (#[trigger] self@.at(i, j)).state
                        == start.at(i, j).state by {
                        if i != x || j != y {
                            assert(self@.at(i, j) == prior.at(i, j));
                        }
                    }
                    assert forall|i: int, j: int|
                        self@.in_bounds(i, j) && before(i, j, x as int, y + 1) implies (#[trigger] self@.at(
                        i,
                        j,
                    )).content == CellContent::Number(0) by {
                        if i != x || j != y {
                            assert(self@.at(i, j) == prior.at(i, j));
                        }
                    }
                }
                y = y + 1;
            }
            x = x + 1;
        }
    }

    /// Gives every cell without a mine the number of mines around it.
    fn fill_numbers(&mut self)
        requires
            old(self)@.rectangular(),
            0 < old(self)@.width(),
        ensures
            final(self)@.rectangular(),
            final(self)@.same_states(old(self)@),
            final(self)@.same_mines(old(self)@),
            final(self)@.numbers_consistent(),
            final(self)@.generated == old(self)@.generated,
            final(self)@.mine_count == old(self)@.mine_count,
            final(self)@.flag_count == old(self)@.flag_count,
            final(self)@.cursor == old(self)@.cursor,
    {
        let w = self.width();
        let h = self.height();
        let ghost start = self@;
        let mut x: usize = 0;
        while x < w
            invariant
                w == start.width(),
                h == start.height(),
                x <= w,
                self@.rectangular(),
                self@.same_states(start),
                self@.same_mines(start),
                self@.generated == start.generated,
                self@.mine_count == start.mine_count,
                self@.flag_count == start.flag_count,
                self@.cursor == start.cursor,
                forall|i: int, j: int| self@.in_bounds(i, j) && i < x ==> #[trigger] self@.number_ok(i, j),
            decreases w - x,
        {
            let mut y: usize = 0;
            while y < h
                invariant
                    w == start.width(),
                    h == start.height(),
                    x < w,
                    y <= h,
                    self@.rectangular(),
                    self@.same_states(start),
                    self@.same_mines(start),
                    self@.generated == start.generated,
                    self@.mine_count == start.mine_count,
                    self@.flag_count == start.flag_count,
                    self@.cursor == start.cursor,
                    forall|i: int, j: int|
                        self@.in_bounds(i, j) && before(i, j, x as int, y as int) ==> #[trigger] self@.number_ok(
                            i,
                            j,
                        ),
                decreases h - y,
            {
                let ghost prior = self@;
                if !self.cell(x, y).is_mine() {
                    let has_mine = |c: Cell| -> (r: bool)
                        ensures
                            r == (c.content == CellContent::Mine),
                        { c.is_mine() };
                    let n = self.count_neighbors(x, y, has_mine);
                    proof {
                        assert(computes(has_mine, holds_mine()));
                    }
                    self.set_content(x, y, CellContent::Number(n));
                    proof {
                        prior.lemma_with_cell(
                            x as int,
                            y as int,
                            Cell { content: CellContent::Number(n), ..prior.at(x as int, y as int) },
                        );
                        assert forall|i: int, j: int| self@.in_bounds(i, j) implies (#[trigger] self@.at(
                            i,
                            j,
                        )).state == start.at(i, j).state && (self@.at(i, j).content == CellContent::Mine) == (
                        start.at(i, j).content == CellContent::Mine) by {
                            if i != x || j != y {
                                assert(self@.at(i, j) == prior.at(i, j));
                            }
                        }
                        assert(self@.same_mines(prior)) by {
                            assert forall|i: int, j: int| self@.in_bounds(i, j) implies (#[trigger] self@.at(
                                i,
                                j,
                            ).content == CellContent::Mine) == (prior.at(i, j).content == CellContent::Mine) by {
                                if i != x || j != y {
                                    assert(self@.at(i, j) == prior.at(i, j));
                                }
                            }
                        }
                    }
                }
                proof {
                    assert forall|i: int, j: int|
                        self@.in_bounds(i, j) && before(i, j, x as int, y + 1) implies #[trigger] self@.number_ok(
                        i,
                        j,
                    ) by {
                        self@.lemma_same_mines(prior, i, j);
                        if i != x || j != y {
                            assert(self@.at(i, j) == prior.at(i, j));
                            assert(prior.number_ok(i, j));
                        }
                    }
                }
                y = y + 1;
            }
            x = x + 1;
        }
    }

    /// Lays mines at the given positions, with `(ax, ay)` as the anchor,
    /// and fills in the numbers. The list is taken only as a whole: where
    /// it is not a layout that the board accepts, nothing changes and the
    /// answer is `false`.
    pub fn lay_mines(&mut self, ax: usize, ay: usize, mines: &Vec<(usize, usize)>) -> (ok: bool)
        requires
            old(self).wf(),
            !old(self)@.generated,
            old(self)@.in_bounds(ax as int, ay as int),
        ensures
            final(self).wf(),
            ok == old(self)@.accepts_layout(ax as int, ay as int, cells(mines@)),
            ok ==> old(self)@.lays(final(self)@, cells(mines@).to_set()),
            ok ==> old(self)@.generates(final(self)@, ax as int, ay as int),
            !ok ==> final(self)@ == old(self)@,
    {
        let ghost start = self@;
        let ghost m = cells(mines@);
        let w = self.width();
        let h = self.height();
        if mines.len() != self.mine_count() as usize {
            return false;
        }
        let mut i: usize = 0;
        proof {
            assert(self@.mines() =~= m.take(0).to_set()) by {
                assert forall|q: (int, int)| !self@.mines().contains(q) by {
                    if self@.in_bounds(q.0, q.1) {
                        assert(self@.untouched(q.0, q.1));
                    }
                }
            }
        }
        while i < mines.len()
            invariant
                i <= mines.len(),
                m == cells(mines@),
                start == old(self)@,
                mines.len() == start.mine_count,
                start.well_formed(),
                !start.generated,
                start.in_bounds(ax as int, ay as int),
                w == start.width(),
                h == start.height(),
                self@.rectangular(),
                self@.same_states(start),
                self@.generated == start.generated,
                self@.mine_count == start.mine_count,
                self@.flag_count == start.flag_count,
                self@.cursor == start.cursor,
                self@.mines() == m.take(i as int).to_set(),
                m.take(i as int).no_duplicates(),
                forall|k: int|
                    0 <= k < i ==> start.in_bounds((#[trigger] m[k]).0, m[k].1) && !near(
                        ax as int,
                        ay as int,
                        m[k].0,
                        m[k].1,
                    ),
            decreases mines.len() - i,
        {
            let (mx, my) = mines[i];
            let ghost p = (mx as int, my as int);
            assert(m[i as int] == p);
            let ghost prior = self@;
            if mx >= w || my >= h || is_near(ax, ay, mx, my) || self.cell(mx, my).is_mine() {
                proof {
                    if start.in_bounds(p.0, p.1) && !near(ax as int, ay as int, p.0, p.1) {
                        assert(prior.mines().contains(p));
                        assert(m.take(i as int).contains(p));
                        let k = choose|k: int| 0 <= k < m.take(i as int).len() && m.take(i as int)[k] == p;
                        assert(m[k] == m[i as int]);
                    }
                    assert(!start.accepts_layout(ax as int, ay as int, m));
                }
                self.clear_contents();
                proof {
                    assert forall|x: int| 0 <= x < start.grid.len() implies self@.grid[x] =~= start.grid[x] by {
                        assert forall|y: int| 0 <= y < start.grid[x].len() implies self@.grid[x][y]
                            == start.grid[x][y] by {
                            assert(start.untouched(x, y));
                            assert(self@.at(x, y).state == start.at(x, y).state);
                            assert(self@.at(x, y).content == start.at(x, y).content);
                        }
                    }
                    assert(self@.grid =~= start.grid);
                }
                return false;
            }
            self.set_content(mx, my, CellContent::Mine);
            proof {
                let sofar = m.take(i as int);
                let upto = m.take(i + 1);
                prior.lemma_with_cell(p.0, p.1, Cell { content: CellContent::Mine, ..prior.at(p.0, p.1) });
                assert forall|x: int, y: int| self@.in_bounds(x, y) implies (#[trigger] self@.at(x, y)).state
                    == start.at(x, y).state by {
                    if x != p.0 || y != p.1 {
                        assert(self@.at(x, y) == prior.at(x, y));
                    }
                }
                assert(upto =~= sofar.push(p));
                assert(self@.mines() =~= prior.mines().insert(p)) by {
                    assert forall|q: (int, int)| self@.mines().contains(q) == prior.mines().insert(p).contains(
                        q,
                    ) by {
                        if self@.in_bounds(q.0, q.1) && q != p {
                            assert(self@.at(q.0, q.1) == prior.at(q.0, q.1));
                        }
                    }
                }
                assert(upto.to_set() =~= sofar.to_set().insert(p)) by {
                    assert forall|q: (int, int)| upto.to_set().contains(q) implies sofar.to_set().insert(p).contains(q) by {
                        let k = choose|k: int| 0 <= k < upto.len() && upto[k] == q;
                        if k < i {
                            assert(sofar[k] == q);
                        }
                    }
                    assert forall|q: (int, int)| sofar.to_set().insert(p).contains(q) implies upto.to_set().contains(q) by {
                        if q == p {
                            assert(upto[i as int] == q);
                        } else {
                            let k = choose|k: int| 0 <= k < sofar.len() && sofar[k] == q;
                            assert(upto[k] == q);
                        }
                    }
                }
                assert(!prior.mines().contains(p));
                assert forall|j: int, k: int| 0 <= j < k < upto.len() implies upto[j] != upto[k] by {
                    if k == i {
                        if upto[j] == p {
                            assert(sofar[j] == p);
                            assert(sofar.to_set().contains(p));
                        }
                    } else {
                        assert(sofar[j] != sofar[k]);
                    }
                }
            }
            i = i + 1;
        }
        proof {
            assert(m.take(i as int) =~= m);
        }
        let ghost placed = self@;
        self.fill_numbers();
        let ghost filled = self@;
        self.set_generated();
        proof {
            let laid = self@;
            filled.lemma_same_grid(laid);
            filled.lemma_same_mines(placed, 0, 0);
            assert(laid.rectangular());
            assert(laid.same_states(start)) by {
                assert forall|x: int, y: int| laid.in_bounds(x, y) implies (#[trigger] laid.at(x, y)).state
                    == start.at(x, y).state by {
                    assert(filled.at(x, y).state == placed.at(x, y).state);
                    assert(placed.at(x, y).state == start.at(x, y).state);
                }
            }
            laid.lemma_same_states(start);
            m.unique_seq_to_set();
            laid.lemma_sets_finite();
            assert(laid.mines() == m.to_set());
            assert forall|x: int, y: int| laid.in_bounds(x, y) && near(ax as int, ay as int, x, y) implies (
            #[trigger] laid.at(x, y)).content != CellContent::Mine by {
                if laid.at(x, y).content == CellContent::Mine {
                    assert(laid.mines().contains((x, y)));
                    assert(m.contains((x, y)));
                }
            }
            assert(start.accepts_layout(ax as int, ay as int, m));
            assert(start.lays(laid, m.to_set()));
            assert(start.generates(laid, ax as int, ay as int));
            assert(laid.well_formed());
        }
        true
    }

    /// Lays the mines at random, with `(ax, ay)` as the anchor: no mine
    /// falls in the anchor's 3x3 block, every other choice of positions is
    /// as likely as any, and each cell without a mine gets the number of
    /// mines around it.
    pub fn generate_grid(&mut self, ax: usize, ay: usize)
        requires
            old(self).wf(),
            !old(self)@.generated,
            old(self)@.in_bounds(ax as int, ay as int),
            old(self)@.has_room(ax as int, ay as int),
        ensures
            final(self).wf(),
            old(self)@.generates(final(self)@, ax as int, ay as int),
    {
        let mines = self.draw_mines(ax, ay);
        let ok = self.lay_mines(ax, ay, &mines);
        assert(ok);
    }
}

} // verus!
