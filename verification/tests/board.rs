use minesweeper::{Cell, CellContent, CellState, Glyph, Minesweeper, Tint};

fn blank() -> Cell {
    Cell { content: CellContent::Number(0), state: CellState::Covered }
}

#[test]
fn new_board_is_blank_and_covered() {
    let game = Minesweeper::new();
    assert_eq!(game.width(), 30);
    assert_eq!(game.height(), 16);
    assert_eq!(game.mine_count(), 99);
    assert_eq!(game.flag_count(), 0);
    assert_eq!(game.cursor(), (15, 8));
    assert!(!game.is_generated());
    for x in 0..30 {
        for y in 0..16 {
            assert_eq!(game.cell(x, y), blank());
        }
    }
}

#[test]
fn with_size_puts_the_cursor_in_the_middle() {
    let game = Minesweeper::with_size(7, 4, 5);
    assert_eq!(game.width(), 7);
    assert_eq!(game.height(), 4);
    assert_eq!(game.mine_count(), 5);
    assert_eq!(game.cursor(), (3, 2));
    assert_eq!(game.mines_remaining(), 5);
    let tiny = Minesweeper::with_size(1, 2, 1);
    assert_eq!(tiny.cursor(), (0, 1));
}

#[test]
fn empty_cell_is_blank_and_covered() {
    assert_eq!(Cell::empty(), blank());
    assert!(!Cell::empty().is_mine());
    assert!(Cell { content: CellContent::Mine, state: CellState::Covered }.is_mine());
}

#[test]
fn covered_means_not_uncovered() {
    assert!(CellState::Covered.is_covered());
    assert!(CellState::Flagged.is_covered());
    assert!(!CellState::Uncovered.is_covered());
}

#[test]
fn flagged_means_flagged_only() {
    assert!(CellState::Flagged.is_flagged());
    assert!(!CellState::Covered.is_flagged());
    assert!(!CellState::Uncovered.is_flagged());
}

#[test]
fn move_to_keeps_a_position_on_the_board() {
    let mut game = Minesweeper::with_size(5, 4, 3);
    game.move_to(2, 3);
    assert_eq!(game.cursor(), (2, 3));
    game.move_to(0, 0);
    assert_eq!(game.cursor(), (0, 0));
}

#[test]
fn move_to_clamps_and_never_wraps() {
    let mut game = Minesweeper::with_size(5, 4, 3);
    game.move_to(5, 1);
    assert_eq!(game.cursor(), (4, 1));
    game.move_to(2, 4);
    assert_eq!(game.cursor(), (2, 3));
    game.move_to(usize::MAX, usize::MAX);
    assert_eq!(game.cursor(), (4, 3));
    assert!(!game.is_generated());
    for x in 0..5 {
        for y in 0..4 {
            assert_eq!(game.cell(x, y), blank());
        }
    }
}

#[test]
fn mark_cell_sets_and_clears_a_flag() {
    let mut game = Minesweeper::with_size(4, 4, 2);
    game.mark_cell(1, 2);
    assert_eq!(game.cell(1, 2).state, CellState::Flagged);
    assert_eq!(game.cell(1, 2).content, CellContent::Number(0));
    assert_eq!(game.flag_count(), 1);
    game.mark_cell(3, 3);
    assert_eq!(game.flag_count(), 2);
    game.mark_cell(1, 2);
    assert_eq!(game.cell(1, 2).state, CellState::Covered);
    assert_eq!(game.flag_count(), 1);
    assert_eq!(game.cell(3, 3).state, CellState::Flagged);
}

#[test]
fn mark_cell_twice_restores_the_board() {
    let mut game = Minesweeper::with_size(4, 3, 2);
    game.mark_cell(0, 0);
    let flags = game.flag_count();
    let mut before = Vec::new();
    for x in 0..4 {
        for y in 0..3 {
            before.push(game.cell(x, y));
        }
    }
    game.mark_cell(2, 1);
    game.mark_cell(2, 1);
    let mut after = Vec::new();
    for x in 0..4 {
        for y in 0..3 {
            after.push(game.cell(x, y));
        }
    }
    assert_eq!(before, after);
    assert_eq!(game.flag_count(), flags);
}

#[test]
fn flag_count_matches_a_scan_of_the_grid() {
    let mut game = Minesweeper::with_size(6, 5, 4);
    let marks = [(0, 0), (5, 4), (2, 2), (0, 0), (3, 1), (2, 2), (2, 2)];
    for (x, y) in marks {
        game.mark_cell(x, y);
        let mut seen = 0;
        for i in 0..6 {
            for j in 0..5 {
                if game.cell(i, j).state.is_flagged() {
                    seen += 1;
                }
            }
        }
        assert_eq!(game.flag_count(), seen);
    }
    assert_eq!(game.flag_count(), 3);
}

#[test]
fn mines_remaining_goes_negative_when_over_flagged() {
    let mut game = Minesweeper::with_size(3, 3, 1);
    assert_eq!(game.mines_remaining(), 1);
    game.mark_cell(0, 0);
    assert_eq!(game.mines_remaining(), 0);
    game.mark_cell(1, 0);
    game.mark_cell(2, 0);
    assert_eq!(game.mines_remaining(), -2);
}

#[test]
fn count_neighbors_counts_the_block_with_its_centre() {
    let mut game = Minesweeper::with_size(4, 4, 2);
    game.mark_cell(1, 1);
    game.mark_cell(0, 0);
    game.mark_cell(2, 1);
    game.mark_cell(3, 3);
    let flagged = |c: Cell| c.state.is_flagged();
    assert_eq!(game.count_neighbors(1, 1, flagged), 3);
    assert_eq!(game.count_neighbors(0, 0, flagged), 2);
    assert_eq!(game.count_neighbors(3, 3, flagged), 1);
    assert_eq!(game.count_neighbors(3, 0, flagged), 1);
    assert_eq!(game.count_neighbors(0, 3, flagged), 0);
    assert_eq!(game.count_neighbors(2, 2, flagged), 3);
}

#[test]
fn count_neighbors_stops_at_the_edges() {
    let game = Minesweeper::with_size(4, 3, 2);
    let any = |_c: Cell| true;
    assert_eq!(game.count_neighbors(0, 0, any), 4);
    assert_eq!(game.count_neighbors(3, 2, any), 4);
    assert_eq!(game.count_neighbors(1, 0, any), 6);
    assert_eq!(game.count_neighbors(0, 1, any), 6);
    assert_eq!(game.count_neighbors(1, 1, any), 9);
    let line = Minesweeper::with_size(1, 5, 1);
    assert_eq!(line.count_neighbors(0, 0, any), 2);
    assert_eq!(line.count_neighbors(0, 2, any), 3);
}

#[test]
fn glyph_follows_state_then_content() {
    let mine = CellContent::Mine;
    let three = CellContent::Number(3);
    let zero = CellContent::Number(0);
    assert_eq!(Cell { content: mine, state: CellState::Flagged }.glyph(), Glyph::Flag);
    assert_eq!(Cell { content: three, state: CellState::Flagged }.glyph(), Glyph::Flag);
    assert_eq!(Cell { content: mine, state: CellState::Covered }.glyph(), Glyph::Hidden);
    assert_eq!(Cell { content: zero, state: CellState::Covered }.glyph(), Glyph::Hidden);
    assert_eq!(Cell { content: mine, state: CellState::Uncovered }.glyph(), Glyph::Mine);
    assert_eq!(Cell { content: zero, state: CellState::Uncovered }.glyph(), Glyph::Blank);
    assert_eq!(Cell { content: three, state: CellState::Uncovered }.glyph(), Glyph::Digit(3));
}

#[test]
fn tint_of_each_glyph() {
    assert_eq!(Glyph::Flag.tint(), Some(Tint::Red));
    assert_eq!(Glyph::Hidden.tint(), Some(Tint::Plain));
    assert_eq!(Glyph::Mine.tint(), Some(Tint::Red));
    assert_eq!(Glyph::Blank.tint(), None);
    assert_eq!(Glyph::Digit(8).tint(), Some(Tint::Cyan));
}
