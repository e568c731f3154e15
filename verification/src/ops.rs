//! The operation applier: one decoded game-record operation at a time,
//! dispatched over a closed enum.

use vstd::prelude::*;

use crate::board::{Goban, GobanError, Stone};
use crate::model::{cleared, on_board, placed, play_step, with_move_number};

verus! {

/// One decoded game-record operation.
#[derive(Copy, Clone, Debug)]
pub enum Operation {
    /// A played move: placement, capture resolution, move-counter step.
    Play(Stone),
    /// A setup stone: placement only, no captures, no counter change.
    Setup(Stone),
    /// Remove whatever stands at a point; total, never fails.
    Clear((u8, u8)),
    /// Overwrite the move counter; total, never fails.
    SetMoveNumber(u64),
}

impl Goban {
    /// Apply one decoded operation to the board. Only a placement on an
    /// occupied or off-board point fails, and then nothing changes.
    pub fn apply(&mut self, op: Operation) -> (r: Result<(), GobanError>)
        requires
            old(self).wf(),
            (op matches Operation::Play(_)) ==> (old(self)@.move_number + 1 <= u64::MAX
                && old(self)@.black_captures + 5 * (old(self)@.size.0 as int
                * old(self)@.size.1 as int) <= u64::MAX && old(self)@.white_captures + 5 * (old(self)@.size.0 as int * old(self)@.size.1 as int) <= u64::MAX),
        ensures
            final(self).wf(),
            (op matches Operation::Play(s) ==> ((r == Ok::<(), GobanError>(()) <==> (on_board(
                old(self)@.size,
                (s.x, s.y),
            ) && !old(self)@.stones.dom().contains((s.x, s.y)))) && (r == Ok::<(), GobanError>(())
                ==> final(self)@ == play_step(old(self)@, (s.x, s.y), s.color)) && (r != Ok::<
                (),
                GobanError,
            >(()) ==> *final(self) == *old(self)))),
            (op matches Operation::Setup(s) ==> ((r == Ok::<(), GobanError>(()) <==> (on_board(
                old(self)@.size,
                (s.x, s.y),
            ) && !old(self)@.stones.dom().contains((s.x, s.y)))) && (r == Ok::<(), GobanError>(())
                ==> final(self)@ == placed(old(self)@, (s.x, s.y), s.color)) && (r != Ok::<
                (),
                GobanError,
            >(()) ==> *final(self) == *old(self)))),
            (op matches Operation::Clear(p) ==> (r == Ok::<(), GobanError>(()) && final(self)@
                == cleared(old(self)@, p))),
            (op matches Operation::SetMoveNumber(n) ==> (r == Ok::<(), GobanError>(()) && final(self)@ == with_move_number(old(self)@, n as nat))),
            r != Ok::<(), GobanError>(()) ==> r == Err::<(), GobanError>(
                GobanError::InvalidMoveError,
            ),
    {
        match op {
            Operation::Play(s) => self.play_stone(s),
            Operation::Setup(s) => self.add_stone(s),
            Operation::Clear(p) => {
                self.clear_point(p);
                Ok(())
            },
            Operation::SetMoveNumber(n) => {
                self.set_move_number(n);
                Ok(())
            },
        }
    }
}

} // verus!
