use minesweeper::{
    CellState, InputAction, InputEvent, Key, Minesweeper, MouseButton, MouseKind, Status,
};

fn key(c: char) -> InputEvent {
    InputEvent::Key(Key::Char(c))
}

fn mouse(column: u16, row: u16, kind: MouseKind) -> InputEvent {
    InputEvent::Mouse { column, row, kind }
}

// Mines at the starred positions:
//   0 0 1 * 1
//   0 0 1 1 1
//   1 1 0 0 0
//   * 1 0 0 0
fn sample() -> Minesweeper {
    let mut game = Minesweeper::with_size(5, 4, 2);
    assert!(game.lay_mines(0, 0, &vec![(3, 0), (0, 3)]));
    game
}

fn uncovered(game: &Minesweeper) -> usize {
    let mut n = 0;
    for x in 0..game.width() {
        for y in 0..game.height() {
            if game.cell(x, y).state == CellState::Uncovered {
                n += 1;
            }
        }
    }
    n
}

#[test]
fn letters_stand_for_actions() {
    let game = Minesweeper::new();
    assert_eq!(game.read_input(key('q')), vec![InputAction::Quit]);
    assert_eq!(game.read_input(key(' ')), vec![InputAction::Reveal]);
    assert_eq!(game.read_input(key('s')), vec![InputAction::Reveal]);
    assert_eq!(game.read_input(key('!')), vec![InputAction::Flag]);
    assert_eq!(game.read_input(key('z')), vec![InputAction::Flag]);
    assert_eq!(game.read_input(key('d')), vec![InputAction::RevealArea]);
}

#[test]
fn other_keys_stand_for_nothing() {
    let game = Minesweeper::new();
    assert_eq!(game.read_input(key('Q')), vec![]);
    assert_eq!(game.read_input(key('x')), vec![]);
    assert_eq!(game.read_input(key('1')), vec![]);
    assert_eq!(game.read_input(InputEvent::Key(Key::Other)), vec![]);
    assert_eq!(game.read_input(InputEvent::Other), vec![]);
}

#[test]
fn arrows_move_the_cursor_by_one() {
    let game = Minesweeper::new();
    assert_eq!(game.read_input(InputEvent::Key(Key::Up)), vec![InputAction::Move(15, 7)]);
    assert_eq!(game.read_input(InputEvent::Key(Key::Down)), vec![InputAction::Move(15, 9)]);
    assert_eq!(game.read_input(InputEvent::Key(Key::Left)), vec![InputAction::Move(14, 8)]);
    assert_eq!(game.read_input(InputEvent::Key(Key::Right)), vec![InputAction::Move(16, 8)]);
    assert_eq!(game.cursor(), (15, 8));
}

#[test]
fn arrows_stop_at_the_edges() {
    let mut game = Minesweeper::new();
    game.move_to(0, 0);
    assert_eq!(game.read_input(InputEvent::Key(Key::Up)), vec![InputAction::Move(0, 0)]);
    assert_eq!(game.read_input(InputEvent::Key(Key::Left)), vec![InputAction::Move(0, 0)]);
    assert_eq!(game.read_input(InputEvent::Key(Key::Down)), vec![InputAction::Move(0, 1)]);
    assert_eq!(game.read_input(InputEvent::Key(Key::Right)), vec![InputAction::Move(1, 0)]);
    game.move_to(29, 15);
    assert_eq!(game.read_input(InputEvent::Key(Key::Down)), vec![InputAction::Move(29, 15)]);
    assert_eq!(game.read_input(InputEvent::Key(Key::Right)), vec![InputAction::Move(29, 15)]);
    assert_eq!(game.read_input(InputEvent::Key(Key::Up)), vec![InputAction::Move(29, 14)]);
    assert_eq!(game.read_input(InputEvent::Key(Key::Left)), vec![InputAction::Move(28, 15)]);
}

#[test]
fn mouse_buttons_move_then_act() {
    let game = Minesweeper::new();
    assert_eq!(
        game.read_input(mouse(8, 3, MouseKind::Down(MouseButton::Left))),
        vec![InputAction::Move(4, 3), InputAction::Reveal]
    );
    assert_eq!(
        game.read_input(mouse(0, 0, MouseKind::Down(MouseButton::Right))),
        vec![InputAction::Move(0, 0), InputAction::Flag]
    );
    assert_eq!(
        game.read_input(mouse(58, 15, MouseKind::Down(MouseButton::Middle))),
        vec![InputAction::Move(29, 15), InputAction::RevealArea]
    );
    assert_eq!(game.read_input(mouse(10, 2, MouseKind::Other)), vec![InputAction::Move(5, 2)]);
}

#[test]
fn mouse_off_the_cells_stands_for_nothing() {
    let game = Minesweeper::new();
    let down = MouseKind::Down(MouseButton::Left);
    assert_eq!(game.read_input(mouse(9, 3, down)), vec![]);
    assert_eq!(game.read_input(mouse(1, 0, down)), vec![]);
    assert_eq!(game.read_input(mouse(60, 3, down)), vec![]);
    assert_eq!(game.read_input(mouse(61, 3, down)), vec![]);
    assert_eq!(game.read_input(mouse(8, 16, down)), vec![]);
    assert_eq!(game.read_input(mouse(u16::MAX, u16::MAX, down)), vec![]);
    assert_eq!(game.read_input(mouse(59, 15, MouseKind::Other)), vec![]);
    let small = Minesweeper::with_size(3, 2, 1);
    assert_eq!(small.read_input(mouse(4, 1, down)), vec![InputAction::Move(2, 1), InputAction::Reveal]);
    assert_eq!(small.read_input(mouse(6, 1, down)), vec![]);
    assert_eq!(small.read_input(mouse(4, 2, down)), vec![]);
}

#[test]
fn apply_move_clamps_to_the_board() {
    let mut game = sample();
    assert_eq!(game.apply(InputAction::Move(3, 2)), Status::Running);
    assert_eq!(game.cursor(), (3, 2));
    assert_eq!(game.apply(InputAction::Move(9, 9)), Status::Running);
    assert_eq!(game.cursor(), (4, 3));
    assert_eq!(uncovered(&game), 0);
}

#[test]
fn apply_flag_toggles_under_the_cursor() {
    let mut game = sample();
    game.move_to(3, 0);
    assert_eq!(game.apply(InputAction::Flag), Status::Running);
    assert_eq!(game.cell(3, 0).state, CellState::Flagged);
    assert_eq!(game.flag_count(), 1);
    assert_eq!(game.apply(InputAction::Flag), Status::Running);
    assert_eq!(game.cell(3, 0).state, CellState::Covered);
    assert_eq!(game.flag_count(), 0);
}

#[test]
fn apply_reveal_on_a_mine_loses() {
    let mut game = sample();
    game.move_to(0, 3);
    assert_eq!(game.apply(InputAction::Reveal), Status::Lost);
    assert_eq!(game.cell(0, 3).state, CellState::Uncovered);
    assert_eq!(uncovered(&game), 1);
}

#[test]
fn apply_reveal_on_a_safe_cell_runs_on() {
    let mut game = sample();
    game.move_to(4, 3);
    assert_eq!(game.apply(InputAction::Reveal), Status::Running);
    assert_eq!(uncovered(&game), 17);
}

#[test]
fn apply_reveal_area_reports_a_hit() {
    let mut game = sample();
    game.move_to(2, 0);
    assert_eq!(game.apply(InputAction::Reveal), Status::Running);
    assert_eq!(game.apply(InputAction::RevealArea), Status::Running);
    assert_eq!(uncovered(&game), 1);
    game.mark_cell(1, 0);
    assert_eq!(game.apply(InputAction::RevealArea), Status::Lost);
    assert_eq!(game.cell(3, 0).state, CellState::Uncovered);
    assert_eq!(game.cell(1, 0).state, CellState::Flagged);
}

#[test]
fn apply_quit_changes_nothing() {
    let mut game = sample();
    assert_eq!(game.apply(InputAction::Quit), Status::Quit);
    assert_eq!(uncovered(&game), 0);
    assert_eq!(game.cursor(), (2, 2));
    assert_eq!(game.flag_count(), 0);
}

#[test]
fn apply_first_reveal_lays_the_mines_at_the_cursor() {
    let mut game = Minesweeper::new();
    game.move_to(0, 0);
    assert_eq!(game.apply(InputAction::Reveal), Status::Running);
    assert!(game.is_generated());
    assert_eq!(game.cell(0, 0).state, CellState::Uncovered);
    assert_eq!(game.cell(1, 1).state, CellState::Uncovered);
}

#[test]
fn apply_all_runs_the_actions_in_order() {
    let mut game = sample();
    let actions = vec![InputAction::Move(3, 0), InputAction::Flag, InputAction::Move(2, 0), InputAction::Reveal];
    assert_eq!(game.apply_all(&actions), Status::Running);
    assert_eq!(game.cursor(), (2, 0));
    assert_eq!(game.cell(3, 0).state, CellState::Flagged);
    assert_eq!(game.cell(2, 0).state, CellState::Uncovered);
    assert_eq!(game.apply_all(&vec![]), Status::Running);
    assert_eq!(game.apply_all(&vec![InputAction::RevealArea]), Status::Running);
    assert_eq!(game.cell(1, 0).state, CellState::Uncovered);
    assert_eq!(uncovered(&game), 18 - 1);
}

#[test]
fn apply_all_stops_at_a_loss() {
    let mut game = sample();
    let actions = vec![
        InputAction::Move(3, 0),
        InputAction::Reveal,
        InputAction::Move(0, 0),
        InputAction::Reveal,
    ];
    assert_eq!(game.apply_all(&actions), Status::Lost);
    assert_eq!(game.cursor(), (3, 0));
    assert_eq!(uncovered(&game), 1);
}

#[test]
fn apply_all_stops_at_quit() {
    let mut game = sample();
    let actions = vec![InputAction::Move(1, 1), InputAction::Quit, InputAction::Flag, InputAction::Move(4, 3)];
    assert_eq!(game.apply_all(&actions), Status::Quit);
    assert_eq!(game.cursor(), (1, 1));
    assert_eq!(game.flag_count(), 0);
}

#[test]
fn a_click_moves_before_it_reveals() {
    let mut game = Minesweeper::new();
    assert!(game.is_roomy());
    let actions = game.read_input(mouse(4, 5, MouseKind::Down(MouseButton::Left)));
    assert_eq!(game.apply_all(&actions), Status::Running);
    assert_eq!(game.cursor(), (2, 5));
    assert!(game.is_generated());
    for x in 1..=3 {
        for y in 4..=6 {
            assert_eq!(game.cell(x, y).state, CellState::Uncovered);
            assert!(!game.cell(x, y).is_mine());
        }
    }
}
