//! Cells: what they hold, how they show, and how they are drawn.

use vstd::prelude::*;

verus! {

/// Visibility of a cell.
#[derive(PartialEq, Eq, Structural, Copy, Clone, Debug)]
pub enum CellState {
    Uncovered,
    Covered,
    Flagged,
}

impl CellState {
    /// True while the content is still hidden, whether flagged or not.
    pub fn is_covered(self) -> (r: bool)
        ensures
            r == (self != CellState::Uncovered),
    {
        self != CellState::Uncovered
    }

    /// True when the cell carries a flag.
    pub fn is_flagged(self) -> (r: bool)
        ensures
            r == (self == CellState::Flagged),
    {
        self == CellState::Flagged
    }
}

/// What a cell holds: a mine, or the number of mines around it.
#[derive(PartialEq, Eq, Structural, Copy, Clone, Debug)]
pub enum CellContent {
    Mine,
    Number(u8),
}

/// One square of the board.
#[derive(PartialEq, Eq, Structural, Copy, Clone, Debug)]
pub struct Cell {
    pub content: CellContent,
    pub state: CellState,
}

/// The predicate "holds a mine", as a value that counting functions take.
pub open spec fn holds_mine() -> spec_fn(Cell) -> bool {
    |c: Cell| c.content == CellContent::Mine
}

/// The predicate "carries a flag", as a value that counting functions take.
pub open spec fn carries_flag() -> spec_fn(Cell) -> bool {
    |c: Cell| c.state == CellState::Flagged
}

/// The predicate "covered and holds a mine", as a value that counting
/// functions take.
pub open spec fn hides_mine() -> spec_fn(Cell) -> bool {
    |c: Cell| c.state == CellState::Covered && c.content == CellContent::Mine
}

impl Cell {
    /// The cell every board starts with: no mine around, covered.
    pub open spec fn blank() -> Cell {
        Cell { content: CellContent::Number(0), state: CellState::Covered }
    }

    /// The cell every board starts with.
    pub fn empty() -> (c: Cell)
        ensures
            c == Cell::blank(),
    {
        Cell { content: CellContent::Number(0), state: CellState::Covered }
    }

    /// True when the cell holds a mine.
    pub fn is_mine(self) -> (r: bool)
        ensures
            r == (self.content == CellContent::Mine),
            r == holds_mine()(self),
    {
        self.content == CellContent::Mine
    }

    /// What a renderer draws for this cell.
    pub open spec fn shown(self) -> Glyph {
        match self.state {
            CellState::Flagged => Glyph::Flag,
            CellState::Covered => Glyph::Hidden,
            CellState::Uncovered => match self.content {
                CellContent::Mine => Glyph::Mine,
                CellContent::Number(n) => if n == 0 {
                    Glyph::Blank
                } else {
                    Glyph::Digit(n)
                },
            },
        }
    }

    /// What a renderer draws for this cell: the state decides first, and
    /// the content shows only once the cell is uncovered.
    pub fn glyph(self) -> (g: Glyph)
        ensures
            g == self.shown(),
    {
        match self.state {
            CellState::Flagged => Glyph::Flag,
            CellState::Covered => Glyph::Hidden,
            CellState::Uncovered => match self.content {
                CellContent::Mine => Glyph::Mine,
                CellContent::Number(n) => if n == 0 {
                    Glyph::Blank
                } else {
                    Glyph::Digit(n)
                },
            },
        }
    }
}

/// The symbol that stands for a cell on screen.
#[derive(PartialEq, Eq, Structural, Copy, Clone, Debug)]
pub enum Glyph {
    /// A flagged cell.
    Flag,
    /// A covered cell.
    Hidden,
    /// An uncovered mine.
    Mine,
    /// An uncovered cell with no mine around it.
    Blank,
    /// An uncovered cell with this many mines around it.
    Digit(u8),
}

/// Foreground colours of the symbols.
#[derive(PartialEq, Eq, Structural, Copy, Clone, Debug)]
pub enum Tint {
    Plain,
    Red,
    Cyan,
}

impl Glyph {
    /// The colour a symbol is drawn in; `None` leaves the colour as it is.
    pub open spec fn colour(self) -> Option<Tint> {
        match self {
            Glyph::Flag => Some(Tint::Red),
            Glyph::Hidden => Some(Tint::Plain),
            Glyph::Mine => Some(Tint::Red),
            Glyph::Blank => None,
            Glyph::Digit(_) => Some(Tint::Cyan),
        }
    }

    /// The colour a symbol is drawn in; `None` leaves the colour as it is.
    pub fn tint(self) -> (t: Option<Tint>)
        ensures
            t == self.colour(),
    {
        match self {
            Glyph::Flag => Some(Tint::Red),
            Glyph::Hidden => Some(Tint::Plain),
            Glyph::Mine => Some(Tint::Red),
            Glyph::Blank => None,
            Glyph::Digit(_) => Some(Tint::Cyan),
        }
    }
}

} // verus!
