//! Playing: what each action does to the game, and when the game ends.

use vstd::prelude::*;
use crate::board::Board;
use crate::game::Minesweeper;
use crate::input::InputAction;
use crate::uncover::Outcome;

verus! {

/// Where the game stands after an action.
#[derive(PartialEq, Eq, Structural, Copy, Clone, Debug)]
pub enum Status {
    /// The game goes on.
    Running,
    /// A mine was uncovered.
    Lost,
    /// The player left.
    Quit,
}

impl Outcome {
    /// A hit ends the game as lost; anything else lets it run.
    pub open spec fn status(self) -> Status {
        match self {
            Outcome::Continue => Status::Running,
            Outcome::MineHit => Status::Lost,
        }
    }
}

impl Board {
    /// `action` takes this board to `next` and leaves the game at
    /// `status`. Reveals and flags act on the cell under the cursor. The
    /// first reveal lays the mines, so it may lead to more than one board:
    /// to each that is a reveal on some layout that the cursor, as the
    /// anchor, allows.
    pub open spec fn moves(self, action: InputAction, next: Board, status: Status) -> bool {
        let (x, y) = self.cursor;
        match action {
            InputAction::Move(mx, my) => next == self.moved_to(mx as int, my as int) && status
                == Status::Running,
            InputAction::Flag => next == self.toggled(x, y) && status == Status::Running,
            InputAction::Reveal => {
                let laid = next.shown_as(self);
                &&& self.generated ==> laid == self
                &&& !self.generated ==> self.generates(laid, x, y)
                &&& next == laid.revealed(x, y)
                &&& status == laid.reveal_outcome(x, y).status()
            },
            InputAction::RevealArea => next == self.area_revealed(x, y) && status == self.area_outcome(
                x,
                y,
            ).status(),
            InputAction::Quit => next == self && status == Status::Quit,
        }
    }

    /// The actions, applied in order until the game ends, take this board
    /// to `end` and leave the game at `status`: either the game had ended
    /// before the last action, or the actions before the last left it
    /// running and the last one was applied.
    pub open spec fn plays(self, actions: Seq<InputAction>, end: Board, status: Status) -> bool
        decreases actions.len(),
    {
        if actions.len() == 0 {
            end == self && status == Status::Running
        } else {
            ||| status != Status::Running && self.plays(actions.drop_last(), end, status)
            ||| exists|mid: Board|
                #[trigger] mid.moves(actions.last(), end, status) && self.plays(
                    actions.drop_last(),
                    mid,
                    Status::Running,
                )
        }
    }

    /// Once the game has ended, the actions that follow change nothing.
    pub proof fn lemma_plays_ended(self, actions: Seq<InputAction>, k: int, end: Board, status: Status)
        requires
            0 <= k <= actions.len(),
            status != Status::Running,
            self.plays(actions.take(k), end, status),
        ensures
            self.plays(actions, end, status),
        decreases actions.len() - k,
    {
        if k == actions.len() {
            assert(actions.take(k) =~= actions);
        } else {
            assert(actions.take(k + 1).drop_last() =~= actions.take(k));
            self.lemma_plays_ended(actions, k + 1, end, status);
        }
    }
}

impl Minesweeper {
    /// Applies one action to the game: a move puts the cursor on the
    /// board, a flag or a reveal acts on the cell under the cursor, and
    /// quitting changes nothing. The game is lost when a reveal hits a
    /// mine.
    pub fn apply(&mut self, action: InputAction) -> (status: Status)
        requires
            old(self).wf(),
            action == InputAction::Reveal ==> old(self)@.generated || old(self)@.has_room(
                old(self)@.cursor.0,
                old(self)@.cursor.1,
            ),
        ensures
            final(self).wf(),
            old(self)@.moves(action, final(self)@, status),
            final(self)@.width() == old(self)@.width(),
            final(self)@.height() == old(self)@.height(),
            final(self)@.mine_count == old(self)@.mine_count,
            old(self)@.generated || action == InputAction::Reveal ==> final(self)@.generated,
    {
        let (x, y) = self.cursor();
        let ghost before = self@;
        match action {
            InputAction::Move(mx, my) => {
                self.move_to(mx, my);
                Status::Running
            },
            InputAction::Flag => {
                self.mark_cell(x, y);
                proof {
                    before.lemma_with_cell(x as int, y as int, self@.at(x as int, y as int));
                }
                Status::Running
            },
            InputAction::Reveal => {
                let outcome = self.reveal_cell(x, y);
                proof {
                    self@.shown_as(before).lemma_flooded(set![(x as int, y as int)]);
                }
                match outcome {
                    Outcome::Continue => Status::Running,
                    Outcome::MineHit => Status::Lost,
                }
            },
            InputAction::RevealArea => {
                let outcome = self.reveal_area(x, y);
                proof {
                    before.lemma_flooded(before.chord_seeds(x as int, y as int));
                }
                match outcome {
                    Outcome::Continue => Status::Running,
                    Outcome::MineHit => Status::Lost,
                }
            },
            InputAction::Quit => Status::Quit,
        }
    }

    /// Applies the actions in order and stops at the first that ends the
    /// game.
    pub fn apply_all(&mut self, actions: &Vec<InputAction>) -> (status: Status)
        requires
            old(self).wf(),
            old(self)@.generated || old(self)@.roomy(),
        ensures
            final(self).wf(),
            old(self)@.plays(actions@, final(self)@, status),
            final(self)@.generated || final(self)@.roomy(),
    {
        let ghost start = self@;
        let mut i: usize = 0;
        while i < actions.len()
            invariant
                i <= actions.len(),
                start == old(self)@,
                self.wf(),
                self@.generated || self@.roomy(),
                start.plays(actions@.take(i as int), self@, Status::Running),
            decreases actions.len() - i,
        {
            let ghost mid = self@;
            let status = self.apply(actions[i]);
            proof {
                let upto = actions@.take(i + 1);
                assert(upto.drop_last() =~= actions@.take(i as int));
                assert(upto.last() == actions[i as int]);
                assert(mid.moves(upto.last(), self@, status));
                assert(start.plays(upto, self@, status));
                if !self@.generated {
                    assert forall|x: int, y: int| self@.in_bounds(x, y) implies #[trigger] self@.has_room(
                        x,
                        y,
                    ) by {
                        assert(mid.has_room(x, y));
                    }
                }
            }
            match status {
                Status::Running => {},
                _ => {
                    proof {
                        start.lemma_plays_ended(actions@, i + 1, self@, status);
                    }
                    return status;
                },
            }
            i = i + 1;
        }
        proof {
            assert(actions@.take(i as int) =~= actions@);
        }
        Status::Running
    }
}

} // verus!
