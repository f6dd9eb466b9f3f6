use minesweeper::{Cell, CellContent, CellState, Minesweeper, Outcome};

fn states(game: &Minesweeper) -> Vec<String> {
    let mut rows = Vec::new();
    for y in 0..game.height() {
        let mut row = String::new();
        for x in 0..game.width() {
            row.push(match game.cell(x, y).state {
                CellState::Covered => '#',
                CellState::Flagged => 'P',
                CellState::Uncovered => '.',
            });
        }
        rows.push(row);
    }
    rows
}

fn contents(game: &Minesweeper) -> Vec<CellContent> {
    let mut all = Vec::new();
    for x in 0..game.width() {
        for y in 0..game.height() {
            all.push(game.cell(x, y).content);
        }
    }
    all
}

// Mines at the starred positions, numbers elsewhere:
//   0 0 1 * 1
//   0 0 1 1 1
//   1 1 0 0 0
//   * 1 0 0 0
fn sample() -> Minesweeper {
    let mut game = Minesweeper::with_size(5, 4, 2);
    assert!(game.lay_mines(0, 0, &vec![(3, 0), (0, 3)]));
    game
}

#[test]
fn reveal_of_a_numbered_cell_uncovers_it_alone() {
    let mut game = sample();
    assert_eq!(game.cell(2, 0).content, CellContent::Number(1));
    assert_eq!(game.reveal_cell(2, 0), Outcome::Continue);
    assert_eq!(states(&game), vec!["##.##", "#####", "#####", "#####"]);
}

#[test]
fn reveal_of_a_blank_cell_opens_its_region() {
    let mut game = sample();
    assert_eq!(game.reveal_cell(0, 0), Outcome::Continue);
    assert_eq!(states(&game), vec!["...##", ".....", ".....", "#...."]);
}

#[test]
fn reveal_spreads_from_any_blank_cell_of_the_region() {
    let mut game = sample();
    assert_eq!(game.reveal_cell(4, 3), Outcome::Continue);
    assert_eq!(states(&game), vec!["...##", ".....", ".....", "#...."]);
}

#[test]
fn reveal_never_uncovers_a_mine_by_spreading() {
    let mut game = sample();
    game.reveal_cell(0, 0);
    assert_eq!(game.cell(3, 0).state, CellState::Covered);
    assert_eq!(game.cell(0, 3).state, CellState::Covered);
    for x in 0..5 {
        for y in 0..4 {
            let cell = game.cell(x, y);
            if cell.state == CellState::Uncovered {
                assert!(!cell.is_mine());
            }
        }
    }
}

#[test]
fn reveal_of_a_mine_is_a_hit_and_spreads_nothing() {
    let mut game = sample();
    assert_eq!(game.reveal_cell(3, 0), Outcome::MineHit);
    assert_eq!(states(&game), vec!["###.#", "#####", "#####", "#####"]);
    assert_eq!(game.cell(3, 0), Cell { content: CellContent::Mine, state: CellState::Uncovered });
}

#[test]
fn reveal_of_an_uncovered_cell_changes_nothing() {
    let mut game = sample();
    game.reveal_cell(3, 0);
    let before = states(&game);
    assert_eq!(game.reveal_cell(3, 0), Outcome::Continue);
    assert_eq!(states(&game), before);
    game.reveal_cell(0, 0);
    let opened = states(&game);
    assert_eq!(game.reveal_cell(1, 1), Outcome::Continue);
    assert_eq!(states(&game), opened);
}

#[test]
fn reveal_of_a_flagged_cell_changes_nothing() {
    let mut game = sample();
    game.mark_cell(3, 0);
    game.mark_cell(0, 0);
    assert_eq!(game.reveal_cell(3, 0), Outcome::Continue);
    assert_eq!(game.reveal_cell(0, 0), Outcome::Continue);
    assert_eq!(states(&game), vec!["P##P#", "#####", "#####", "#####"]);
    assert_eq!(game.flag_count(), 2);
}

#[test]
fn flags_stop_the_spread() {
    let mut game = Minesweeper::with_size(7, 1, 1);
    assert!(game.lay_mines(0, 0, &vec![(6, 0)]));
    game.mark_cell(2, 0);
    assert_eq!(game.reveal_cell(0, 0), Outcome::Continue);
    assert_eq!(states(&game), vec!["..P####"]);
    assert_eq!(game.reveal_cell(4, 0), Outcome::Continue);
    assert_eq!(states(&game), vec!["..P...#"]);
    assert_eq!(game.flag_count(), 1);
}

#[test]
fn reveal_keeps_the_layout() {
    let mut game = sample();
    let laid = contents(&game);
    game.reveal_cell(0, 0);
    game.reveal_cell(3, 0);
    game.reveal_cell(4, 0);
    game.reveal_area(1, 1);
    game.mark_cell(0, 3);
    assert_eq!(contents(&game), laid);
    assert!(game.is_generated());
    assert_eq!(game.mine_count(), 2);
}

#[test]
fn first_reveal_lays_the_mines_and_opens_the_anchor_block() {
    for round in 0..20 {
        let mut game = Minesweeper::new();
        let x = (round * 11) % 30;
        let y = (round * 3) % 16;
        assert_eq!(game.reveal_cell(x, y), Outcome::Continue);
        assert!(game.is_generated());
        let mut mines = 0;
        for i in 0..30 {
            for j in 0..16 {
                let cell = game.cell(i, j);
                if cell.is_mine() {
                    mines += 1;
                    assert_eq!(cell.state, CellState::Covered);
                }
                if i + 1 >= x && i <= x + 1 && j + 1 >= y && j <= y + 1 {
                    assert_eq!(cell.state, CellState::Uncovered);
                    assert!(!cell.is_mine());
                }
                if cell.state == CellState::Uncovered && cell.content == CellContent::Number(0) {
                    for ni in i.saturating_sub(1)..=(i + 1).min(29) {
                        for nj in j.saturating_sub(1)..=(j + 1).min(15) {
                            assert_eq!(game.cell(ni, nj).state, CellState::Uncovered);
                        }
                    }
                }
            }
        }
        assert_eq!(mines, 99);
        let laid = contents(&game);
        game.reveal_cell((x + 15) % 30, (y + 8) % 16);
        assert_eq!(contents(&game), laid);
    }
}

#[test]
fn first_reveal_on_a_flagged_cell_still_lays_the_mines() {
    let mut game = Minesweeper::with_size(6, 6, 4);
    game.mark_cell(2, 2);
    assert_eq!(game.reveal_cell(2, 2), Outcome::Continue);
    assert!(game.is_generated());
    assert_eq!(game.cell(2, 2), Cell { content: CellContent::Number(0), state: CellState::Flagged });
    for x in 0..6 {
        for y in 0..6 {
            assert_ne!(game.cell(x, y).state, CellState::Uncovered);
        }
    }
}

// Mines at the starred positions:
//   * 2 * 1 0
//   1 2 1 1 0
//   0 0 0 0 0
//   0 0 0 0 0
//   0 0 0 0 0
fn chord_board() -> Minesweeper {
    let mut game = Minesweeper::with_size(5, 5, 2);
    assert!(game.lay_mines(4, 4, &vec![(0, 0), (2, 0)]));
    game
}

#[test]
fn chord_with_a_wrong_flag_hits_the_mine_and_opens_the_rest() {
    let mut game = chord_board();
    assert_eq!(game.cell(1, 1).content, CellContent::Number(2));
    assert_eq!(game.reveal_cell(1, 1), Outcome::Continue);
    game.mark_cell(0, 0);
    game.mark_cell(0, 1);
    assert_eq!(game.reveal_area(1, 1), Outcome::MineHit);
    assert_eq!(states(&game), vec!["P....", "P....", ".....", ".....", "....."]);
    assert_eq!(game.cell(2, 0), Cell { content: CellContent::Mine, state: CellState::Uncovered });
    assert_eq!(game.flag_count(), 2);
}

#[test]
fn chord_with_the_right_flags_opens_the_block() {
    let mut game = chord_board();
    game.reveal_cell(1, 1);
    game.mark_cell(0, 0);
    game.mark_cell(2, 0);
    assert_eq!(game.reveal_area(1, 1), Outcome::Continue);
    assert_eq!(states(&game), vec!["P.P..", ".....", ".....", ".....", "....."]);
}

#[test]
fn chord_without_matching_flags_changes_nothing() {
    let mut game = chord_board();
    game.reveal_cell(1, 1);
    let before = states(&game);
    assert_eq!(game.reveal_area(1, 1), Outcome::Continue);
    assert_eq!(states(&game), before);
    game.mark_cell(0, 0);
    let one = states(&game);
    assert_eq!(game.reveal_area(1, 1), Outcome::Continue);
    assert_eq!(states(&game), one);
    game.mark_cell(2, 0);
    game.mark_cell(1, 0);
    let three = states(&game);
    assert_eq!(game.reveal_area(1, 1), Outcome::Continue);
    assert_eq!(states(&game), three);
    assert_eq!(game.flag_count(), 3);
}

#[test]
fn chord_on_a_covered_or_flagged_cell_changes_nothing() {
    let mut game = chord_board();
    let before = states(&game);
    assert_eq!(game.reveal_area(4, 4), Outcome::Continue);
    assert_eq!(game.reveal_area(1, 1), Outcome::Continue);
    assert_eq!(states(&game), before);
    game.mark_cell(3, 3);
    assert_eq!(game.reveal_area(3, 3), Outcome::Continue);
    assert_eq!(states(&game), vec!["#####", "#####", "#####", "###P#", "#####"]);
    let mut fresh = Minesweeper::with_size(5, 5, 2);
    assert_eq!(fresh.reveal_area(2, 2), Outcome::Continue);
    assert!(!fresh.is_generated());
}

#[test]
fn chord_on_an_uncovered_mine_changes_nothing() {
    let mut game = chord_board();
    assert_eq!(game.reveal_cell(0, 0), Outcome::MineHit);
    let before = states(&game);
    assert_eq!(game.reveal_area(0, 0), Outcome::Continue);
    assert_eq!(states(&game), before);
}

#[test]
fn chord_can_uncover_several_mines() {
    let mut game = chord_board();
    game.reveal_cell(1, 1);
    game.mark_cell(0, 1);
    game.mark_cell(2, 1);
    assert_eq!(game.reveal_area(1, 1), Outcome::MineHit);
    assert_eq!(states(&game), vec![".....", "P.P..", ".....", ".....", "....."]);
    assert_eq!(game.cell(0, 0).state, CellState::Uncovered);
    assert_eq!(game.cell(2, 0).state, CellState::Uncovered);
}

#[test]
fn chord_on_a_blank_cell_with_no_flags_opens_covered_neighbours() {
    let mut game = Minesweeper::with_size(5, 1, 1);
    assert!(game.lay_mines(0, 0, &vec![(4, 0)]));
    game.mark_cell(1, 0);
    game.reveal_cell(0, 0);
    assert_eq!(states(&game), vec![".P###"]);
    game.mark_cell(1, 0);
    assert_eq!(game.reveal_area(0, 0), Outcome::Continue);
    assert_eq!(states(&game), vec!["....#"]);
}

#[test]
fn chord_counts_a_flag_in_the_block_only() {
    let mut game = chord_board();
    game.reveal_cell(3, 0);
    game.mark_cell(0, 0);
    assert_eq!(game.reveal_area(3, 0), Outcome::Continue);
    assert_eq!(states(&game), vec!["P##.#", "#####", "#####", "#####", "#####"]);
    game.mark_cell(4, 1);
    assert_eq!(game.reveal_area(3, 0), Outcome::MineHit);
    assert_eq!(states(&game), vec!["P#...", "##..P", "#####", "#####", "#####"]);
}
