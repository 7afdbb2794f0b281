//! Game-level types shared by all board games: the status of a game,
//! the errors a move can be rejected with, and the capability every
//! game engine offers (apply a move, query status, reset).

use vstd::prelude::*;

use crate::board::Player;

verus! {

/// Outcome of a game after a move: somebody has won, the board is full
/// without a winner, or play goes on. Derived from the board, never stored.
#[derive(Debug, Copy, Clone, PartialEq, Eq, Structural)]
pub enum GameStatus {
    Won(Player),
    Drawn,
    InProgress,
}

/// The ways a request can be rejected. Every error leaves the engine
/// unchanged; the caller is expected to try again.
#[derive(Debug, Copy, Clone, PartialEq, Eq, Structural)]
pub enum GameError {
    /// The targeted square already holds a piece (for the gravity game:
    /// the column is full).
    SquareNotEmpty,
    /// An index lies outside the board's dimensions.
    OutOfBounds,
    /// A board was requested with zero columns or zero rows.
    InvalidDimensions,
}

/// What every game engine offers. Each implementation supplies spec
/// functions giving the exact meaning of its status, its moves and its
/// reset, so the one trait carries each game's full contract.
pub trait Game: Sized {
    /// The engine's internal invariant.
    spec fn wf(&self) -> bool;

    /// How many coordinates one move takes.
    spec fn inputs_spec(&self) -> int;

    /// `st` is a correct status for the current board.
    spec fn status_spec(&self, st: GameStatus) -> bool;

    /// Relation between the engine before a move (`pre`), the engine
    /// after it (`self`), the move played and its result.
    spec fn play_spec(
        &self,
        pre: Self,
        player: Player,
        input: Seq<usize>,
        r: Result<GameStatus, GameError>,
    ) -> bool;

    /// Relation between the engine before a reset (`pre`) and after it.
    spec fn reset_spec(&self, pre: Self) -> bool;

    fn get_status(&self) -> (st: GameStatus)
        requires
            self.wf(),
        ensures
            self.status_spec(st),
    ;

    fn play(&mut self, player: Player, input: &Vec<usize>) -> (r: Result<GameStatus, GameError>)
        requires
            old(self).wf(),
            input@.len() >= old(self).inputs_spec(),
        ensures
            final(self).wf(),
            final(self).play_spec(*old(self), player, input@, r),
    ;

    fn reset(&mut self)
        requires
            old(self).wf(),
        ensures
            final(self).wf(),
            final(self).reset_spec(*old(self)),
    ;

    fn num_inputs(&self) -> (n: usize)
        requires
            self.wf(),
        ensures
            n == self.inputs_spec(),
    ;
}

} // verus!
