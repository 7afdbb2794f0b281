//! Tic-Tac-Toe: free placement on a square board, winning by holding a
//! complete row, a complete column, or one of the two corner-to-corner
//! diagonals.

use vstd::prelude::*;

use crate::board::Board;
use crate::board::BoardIterator;
use crate::board::Player;
use crate::board::Square;
use crate::board::diag_seq;
use crate::board::lemma_line_seq_cells;
use crate::board::line_seq;
use crate::game::Game;
use crate::game::GameError;
use crate::game::GameStatus;

verus! {

/// `s` is non-empty and every position holds a piece of player `p`.
pub open spec fn all_of(s: Seq<Square>, p: Player) -> bool {
    s.len() > 0 && forall|j: int| 0 <= j < s.len() ==> s[j] == Square::Played(p)
}

/// Player `p` holds a complete line of `b`: a full row, a full column,
/// or one of the two corner-to-corner diagonals.
pub open spec fn ttt_win(b: Board, p: Player) -> bool {
    ||| exists|r: int| 0 <= r < b.spec_rows() && #[trigger] all_of(line_seq(b, 0, r, 1, 0), p)
    ||| exists|c: int| 0 <= c < b.spec_columns() && #[trigger] all_of(line_seq(b, c, 0, 0, 1), p)
    ||| all_of(main_diag_seq(b), p)
    ||| all_of(anti_diag_seq(b), p)
}

/// The squares of the down-right diagonal from the upper left corner.
pub open spec fn main_diag_seq(b: Board) -> Seq<Square> {
    diag_seq(b, 0, 0, true)
}

/// The squares of the down-left diagonal from the upper right corner.
pub open spec fn anti_diag_seq(b: Board) -> Seq<Square> {
    diag_seq(b, b.spec_columns() - 1, 0, false)
}

/// `st` is the correct status of board `b`.
pub open spec fn ttt_status_ok(b: Board, st: GameStatus) -> bool {
    match st {
        GameStatus::Won(p) => ttt_win(b, p),
        GameStatus::Drawn => b.full() && (forall|p: Player| !ttt_win(b, p)),
        GameStatus::InProgress => !b.full() && (forall|p: Player| !ttt_win(b, p)),
    }
}

/// No line of an empty board is fully held by a player.
proof fn lemma_empty_no_all(b: Board, c: int, r: int, dc: int, dr: int, p: Player)
    requires
        b.wf(),
        b.all_empty(),
    ensures
        !all_of(line_seq(b, c, r, dc, dr), p),
{
    if all_of(line_seq(b, c, r, dc, dr), p) {
        let s = line_seq(b, c, r, dc, dr);
        assert(s[0] == Square::Played(p));
        lemma_line_seq_cells(b, c, r, dc, dr);
        let (cc, rr) = choose|cc: int, rr: int| b.in_bounds(cc, rr) && s[0] == b.cell(cc, rr);
        assert(false);
    }
}

/// An empty board has no winner and is not full.
pub proof fn lemma_ttt_empty(b: Board)
    requires
        b.wf(),
        b.all_empty(),
    ensures
        forall|p: Player| !ttt_win(b, p),
        !b.full(),
{
    b.lemma_wf_dims();
    assert(b.in_bounds(0, 0) && b.cell(0, 0) == Square::Empty);
    assert forall|p: Player| !ttt_win(b, p) by {
        if ttt_win(b, p) {
            if exists|r: int|
                0 <= r < b.spec_rows() && #[trigger] all_of(line_seq(b, 0, r, 1, 0), p) {
                let r = choose|r: int|
                    0 <= r < b.spec_rows() && #[trigger] all_of(line_seq(b, 0, r, 1, 0), p);
                lemma_empty_no_all(b, 0, r, 1, 0, p);
            } else if exists|c: int|
                0 <= c < b.spec_columns() && #[trigger] all_of(line_seq(b, c, 0, 0, 1), p) {
                let c = choose|c: int|
                    0 <= c < b.spec_columns() && #[trigger] all_of(line_seq(b, c, 0, 0, 1), p);
                lemma_empty_no_all(b, c, 0, 0, 1, p);
            } else if all_of(main_diag_seq(b), p) {
                lemma_empty_no_all(b, 0, 0, 1, 1, p);
            } else {
                lemma_empty_no_all(b, b.spec_columns() - 1, 0, -1, 1, p);
            }
        }
    }
}

/// The Tic-Tac-Toe engine: free placement on a square board, a full
/// line needed to win.
pub struct Tictactoe {
    board: Board,
}

impl Tictactoe {
    /// The board being played on.
    pub closed spec fn spec_board(&self) -> Board {
        self.board
    }

    /// Engine invariant: a well-formed, square board.
    pub open spec fn inv(&self) -> bool {
        &&& self.spec_board().wf()
        &&& self.spec_board().spec_columns() == self.spec_board().spec_rows()
    }

    /// Read access to the board, for rendering and inspection.
    pub fn board(&self) -> (b: &Board)
        ensures
            *b == self.spec_board(),
    {
        &self.board
    }

    /// A new engine over the given square board.
    pub fn new(board: Board) -> (g: Tictactoe)
        requires
            board.wf(),
            board.spec_columns() == board.spec_rows(),
        ensures
            g.inv(),
            g.spec_board() == board,
    {
        Tictactoe { board }
    }

    /// Consume the cursor: the player holding every one of its squares,
    /// if the line is non-empty and single-handed.
    fn is_winning(&self, iterator: &mut BoardIterator) -> (r: Option<Player>)
        requires
            old(iterator).wf(),
        ensures
            final(iterator).wf(),
            match r {
                Some(p) => all_of(old(iterator).remaining(), p),
                None => forall|p: Player| !all_of(old(iterator).remaining(), p),
            },
    {
        let ghost s = old(iterator).remaining();
        let first = match iterator.next() {
            None => {
                return None;
            },
            Some(square) => square,
        };
        match first {
            Square::Empty => None,
            Square::Played(player) => {
                let ghost mut i: int = 1;
                loop
                    invariant
                        iterator.wf(),
                        s == old(iterator).remaining(),
                        1 <= i <= s.len(),
                        iterator.remaining() == s.skip(i),
                        first == s[0],
                        s[0] == Square::Played(player),
                        forall|j: int| 0 <= j < i ==> #[trigger] s[j] == s[0],
                    decreases s.len() - i,
                {
                    match iterator.next() {
                        None => {
                            return Some(player);
                        },
                        Some(square) => {
                            proof {
                                assert(s.skip(i)[0] == s[i]);
                                assert(s.skip(i).drop_first() =~= s.skip(i + 1));
                            }
                            if square != first {
                                return None;
                            }
                            proof {
                                i = i + 1;
                            }
                        },
                    }
                }
            },
        }
    }

    /// The player holding the whole of row `row`, if any.
    fn is_winning_row(&self, row: usize) -> (r: Option<Player>)
        requires
            self.inv(),
        ensures
            match r {
                Some(p) => all_of(line_seq(self.spec_board(), 0, row as int, 1, 0), p),
                None => forall|p: Player|
                    !all_of(line_seq(self.spec_board(), 0, row as int, 1, 0), p),
            },
    {
        let mut iterator = self.board.row_iterator(row);
        self.is_winning(&mut iterator)
    }

    /// The player holding the whole of column `column`, if any.
    fn is_winning_column(&self, column: usize) -> (r: Option<Player>)
        requires
            self.inv(),
        ensures
            match r {
                Some(p) => all_of(line_seq(self.spec_board(), column as int, 0, 0, 1), p),
                None => forall|p: Player|
                    !all_of(line_seq(self.spec_board(), column as int, 0, 0, 1), p),
            },
    {
        let mut iterator = self.board.column_iterator(column);
        self.is_winning(&mut iterator)
    }

    /// The player holding the whole down-right diagonal, if any.
    fn is_winning_forward_diagonal(&self) -> (r: Option<Player>)
        requires
            self.inv(),
        ensures
            match r {
                Some(p) => all_of(main_diag_seq(self.spec_board()), p),
                None => forall|p: Player| !all_of(main_diag_seq(self.spec_board()), p),
            },
    {
        let mut iterator = self.board.diagonal_iterator(0, true);
        self.is_winning(&mut iterator)
    }

    /// The player holding the whole down-left diagonal, if any.
    fn is_winning_reverse_diagonal(&self) -> (r: Option<Player>)
        requires
            self.inv(),
        ensures
            match r {
                Some(p) => all_of(anti_diag_seq(self.spec_board()), p),
                None => forall|p: Player| !all_of(anti_diag_seq(self.spec_board()), p),
            },
    {
        let columns = self.board.columns();
        proof {
            self.board.lemma_wf_dims();
        }
        let mut iterator = self.board.diagonal_iterator(columns - 1, false);
        self.is_winning(&mut iterator)
    }

    /// The first winner found scanning rows and columns in index order,
    /// then the two diagonals; `None` exactly when no line is held.
    fn detect_win(&self) -> (r: Option<Player>)
        requires
            self.inv(),
        ensures
            match r {
                Some(p) => ttt_win(self.spec_board(), p),
                None => forall|p: Player| !ttt_win(self.spec_board(), p),
            },
    {
        let ghost b = self.spec_board();
        let len = self.board.columns();
        for i in 0..len
            invariant
                self.inv(),
                b == self.spec_board(),
                len == b.spec_columns(),
                len == b.spec_rows(),
                forall|r: int, p: Player| #![trigger all_of(line_seq(b, 0, r, 1, 0), p)]
                    0 <= r < i ==> !all_of(line_seq(b, 0, r, 1, 0), p),
                forall|c: int, p: Player| #![trigger all_of(line_seq(b, c, 0, 0, 1), p)]
                    0 <= c < i ==> !all_of(line_seq(b, c, 0, 0, 1), p),
        {
            if let Some(winner) = self.is_winning_row(i) {
                return Some(winner);
            }
            if let Some(winner) = self.is_winning_column(i) {
                return Some(winner);
            }
        }
        if let Some(winner) = self.is_winning_forward_diagonal() {
            return Some(winner);
        }
        if let Some(winner) = self.is_winning_reverse_diagonal() {
            return Some(winner);
        }
        None
    }

    /// Whether every square of the board is occupied.
    fn detect_draw(&self) -> (r: bool)
        requires
            self.inv(),
        ensures
            r <==> self.spec_board().full(),
    {
        let ghost b = self.spec_board();
        let len = self.board.columns();
        for column in 0..len
            invariant
                self.inv(),
                b == self.spec_board(),
                len == b.spec_columns(),
                len == b.spec_rows(),
                forall|c: int, r: int|
                    0 <= c < column && 0 <= r < len ==> #[trigger] b.cell(c, r) != Square::Empty,
        {
            for row in 0..len
                invariant
                    self.inv(),
                    b == self.spec_board(),
                    len == b.spec_columns(),
                    len == b.spec_rows(),
                    column < len,
                    forall|c: int, r: int|
                        0 <= c < column && 0 <= r < len ==> #[trigger] b.cell(c, r)
                            != Square::Empty,
                    forall|r: int|
                        0 <= r < row ==> #[trigger] b.cell(column as int, r) != Square::Empty,
            {
                match self.board.get_square(column, row) {
                    Some(Square::Empty) => {
                        return false;
                    },
                    _ => {},
                }
            }
        }
        true
    }
}

impl Game for Tictactoe {
    open spec fn wf(&self) -> bool {
        self.inv()
    }

    open spec fn inputs_spec(&self) -> int {
        2
    }

    open spec fn status_spec(&self, st: GameStatus) -> bool {
        ttt_status_ok(self.spec_board(), st)
    }

    /// A move names a column and a row. Outside the board it is
    /// rejected untouched; onto an occupied square it is rejected
    /// untouched; otherwise the square is taken and the new status is
    /// returned.
    open spec fn play_spec(
        &self,
        pre: Self,
        player: Player,
        input: Seq<usize>,
        r: Result<GameStatus, GameError>,
    ) -> bool {
        let b = pre.spec_board();
        let c = input[0] as int;
        let rw = input[1] as int;
        if !b.in_bounds(c, rw) {
            r == Result::<GameStatus, GameError>::Err(GameError::OutOfBounds) && *self == pre
        } else if b.cell(c, rw) != Square::Empty {
            r == Result::<GameStatus, GameError>::Err(GameError::SquareNotEmpty) && *self == pre
        } else {
            &&& self.spec_board().same_dims(&b)
            &&& forall|cc: int, rr: int|
                b.in_bounds(cc, rr) ==> self.spec_board().cell(cc, rr) == (if cc == c && rr == rw {
                    Square::Played(player)
                } else {
                    b.cell(cc, rr)
                })
            &&& r matches Ok(st) && ttt_status_ok(self.spec_board(), st)
        }
    }

    /// Reset clears every square, keeps the dimensions, and leaves a
    /// game that is in progress again.
    open spec fn reset_spec(&self, pre: Self) -> bool {
        &&& self.spec_board().same_dims(&pre.spec_board())
        &&& self.spec_board().all_empty()
        &&& ttt_status_ok(self.spec_board(), GameStatus::InProgress)
    }

    fn get_status(&self) -> (st: GameStatus) {
        if let Some(player) = self.detect_win() {
            GameStatus::Won(player)
        } else if self.detect_draw() {
            GameStatus::Drawn
        } else {
            GameStatus::InProgress
        }
    }

    fn play(&mut self, player: Player, input: &Vec<usize>) -> (r: Result<GameStatus, GameError>) {
        let column = input[0];
        let row = input[1];
        match self.board.get_square(column, row) {
            Some(Square::Played(_)) => Err(GameError::SquareNotEmpty),
            Some(Square::Empty) => {
                let _ = self.board.set_square(column, row, Square::Played(player));
                Ok(self.get_status())
            },
            None => Err(GameError::OutOfBounds),
        }
    }

    fn reset(&mut self) {
        self.board.reset();
        proof {
            lemma_ttt_empty(self.spec_board());
        }
    }

    fn num_inputs(&self) -> (n: usize) {
        2
    }
}

} // verus!
