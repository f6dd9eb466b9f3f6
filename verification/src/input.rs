//! Input: the events a front end reports, and the actions they stand for.

use vstd::prelude::*;
use crate::board::Board;
use crate::game::Minesweeper;

verus! {

/// What the player asks for.
#[derive(PartialEq, Eq, Structural, Copy, Clone, Debug)]
pub enum InputAction {
    /// Put the cursor on this column and row.
    Move(usize, usize),
    /// Toggle the flag under the cursor.
    Flag,
    /// Reveal the cell under the cursor.
    Reveal,
    /// Reveal around the cell under the cursor.
    RevealArea,
    /// Leave the game.
    Quit,
}

/// A key of the keyboard, as far as the game tells keys apart.
#[derive(PartialEq, Eq, Structural, Copy, Clone, Debug)]
pub enum Key {
    Char(char),
    Up,
    Down,
    Left,
    Right,
    Other,
}

/// A button of the mouse.
#[derive(PartialEq, Eq, Structural, Copy, Clone, Debug)]
pub enum MouseButton {
    Left,
    Right,
    Middle,
}

/// What the mouse did, as far as the game tells it apart.
#[derive(PartialEq, Eq, Structural, Copy, Clone, Debug)]
pub enum MouseKind {
    /// A button went down.
    Down(MouseButton),
    /// Anything else: a release, a drag, a move, the wheel.
    Other,
}

/// One event of the terminal. A mouse event carries the screen column and
/// row it happened on.
#[derive(PartialEq, Eq, Structural, Copy, Clone, Debug)]
pub enum InputEvent {
    Key(Key),
    Mouse { column: u16, row: u16, kind: MouseKind },
    Other,
}

impl Board {
    /// The actions a key stands for. Arrows move the cursor by one cell
    /// and stop at the edge of the board.
    pub open spec fn key_actions(self, key: Key) -> Seq<InputAction> {
        let (px, py) = self.cursor;
        match key {
            Key::Char(c) => if c == 'q' {
                seq![InputAction::Quit]
            } else if c == ' ' || c == 's' {
                seq![InputAction::Reveal]
            } else if c == '!' || c == 'z' {
                seq![InputAction::Flag]
            } else if c == 'd' {
                seq![InputAction::RevealArea]
            } else {
                seq![]
            },
            Key::Up => seq![InputAction::Move(px as usize, (if py > 0 { py - 1 } else { 0 }) as usize)],
            Key::Down => seq![
                InputAction::Move(px as usize, (if py + 1 < self.height() { py + 1 } else { self.height() - 1 }) as usize),
            ],
            Key::Left => seq![InputAction::Move((if px > 0 { px - 1 } else { 0 }) as usize, py as usize)],
            Key::Right => seq![
                InputAction::Move((if px + 1 < self.width() { px + 1 } else { self.width() - 1 }) as usize, py as usize),
            ],
            Key::Other => seq![],
        }
    }

    /// The actions a mouse event stands for. A cell is two screen columns
    /// wide and one row high, and only its first column counts: an event
    /// there moves the cursor to the cell, and a button going down acts on
    /// it. An event anywhere else stands for nothing.
    pub open spec fn mouse_actions(self, column: u16, row: u16, kind: MouseKind) -> Seq<InputAction> {
        if column / 2 >= self.width() || row >= self.height() || column % 2 != 0 {
            seq![]
        } else {
            let to = InputAction::Move((column / 2) as usize, row as usize);
            match kind {
                MouseKind::Down(MouseButton::Left) => seq![to, InputAction::Reveal],
                MouseKind::Down(MouseButton::Right) => seq![to, InputAction::Flag],
                MouseKind::Down(MouseButton::Middle) => seq![to, InputAction::RevealArea],
                MouseKind::Other => seq![to],
            }
        }
    }

    /// The actions an event stands for, in the order they apply.
    pub open spec fn actions_for(self, event: InputEvent) -> Seq<InputAction> {
        match event {
            InputEvent::Key(key) => self.key_actions(key),
            InputEvent::Mouse { column, row, kind } => self.mouse_actions(column, row, kind),
            InputEvent::Other => seq![],
        }
    }
}

impl Minesweeper {
    /// Maps an event to the actions it stands for, in the order
    /// they apply. The board does not change.
    pub fn read_input(&self, event: InputEvent) -> (actions: Vec<InputAction>)
        requires
            self.wf(),
        ensures
            actions@ == self@.actions_for(event),
    {
        let w = self.width();
        let h = self.height();
        let (px, py) = self.cursor();
        let mut actions: Vec<InputAction> = Vec::new();
        match event {
            InputEvent::Key(key) => match key {
                Key::Char(c) => {
                    if c == 'q' {
                        actions.push(InputAction::Quit);
                    } else if c == ' ' || c == 's' {
                        actions.push(InputAction::Reveal);
                    } else if c == '!' || c == 'z' {
                        actions.push(InputAction::Flag);
                    } else if c == 'd' {
                        actions.push(InputAction::RevealArea);
                    }
                },
                Key::Up => {
                    actions.push(InputAction::Move(px, if py > 0 { py - 1 } else { 0 }));
                },
                Key::Down => {
                    actions.push(InputAction::Move(px, if py + 1 < h { py + 1 } else { h - 1 }));
                },
                Key::Left => {
                    actions.push(InputAction::Move(if px > 0 { px - 1 } else { 0 }, py));
                },
                Key::Right => {
                    actions.push(InputAction::Move(if px + 1 < w { px + 1 } else { w - 1 }, py));
                },
                Key::Other => {},
            },
            InputEvent::Mouse { column, row, kind } => {
                let npx = (column / 2) as usize;
                let npy = row as usize;
                if !(npx >= w || npy >= h || column % 2 != 0) {
                    actions.push(InputAction::Move(npx, npy));
                    match kind {
                        MouseKind::Down(MouseButton::Left) => actions.push(InputAction::Reveal),
                        MouseKind::Down(MouseButton::Right) => actions.push(InputAction::Flag),
                        MouseKind::Down(MouseButton::Middle) => actions.push(InputAction::RevealArea),
                        MouseKind::Other => {},
                    }
                }
            },
            InputEvent::Other => {},
        }
        assert(actions@ =~= self@.actions_for(event));
        actions
    }
}

} // verus!
