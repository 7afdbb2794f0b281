//! Connect-N: gravity-drop placement on a rectangular board, winning
//! with a run of N equal pieces along any row, column or diagonal.

use vstd::prelude::*;

use crate::board::Board;
use crate::board::BoardIterator;
use crate::board::Player;
use crate::board::Square;
use crate::board::diag_len;
use crate::board::diag_seq;
use crate::board::diag_step;
use crate::board::is_origin;
use crate::board::lemma_diag_len_at_most;
use crate::board::lemma_dii_wf_bounds;
use crate::board::lemma_line_seq_cells;
use crate::board::lemma_line_seq_len;
use crate::board::lemma_row_seq_index;
use crate::board::lemma_sweep_index_range;
use crate::board::lemma_sweep_injective;
use crate::board::line_seq;
use crate::board::min_int;
use crate::board::sweep_index;
use crate::board::sweep_total;
use crate::game::Game;
use crate::game::GameError;
use crate::game::GameStatus;

verus! {

/// Positions i .. i+n of `s` all hold a piece of player `p`.
pub open spec fn run_at(s: Seq<Square>, i: int, n: int, p: Player) -> bool {
    forall|j: int| i <= j < i + n ==> s[j] == Square::Played(p)
}

/// Somewhere in `s`, `n` consecutive positions all hold a piece of `p`.
pub open spec fn has_run(s: Seq<Square>, n: int, p: Player) -> bool {
    exists|i: int| 0 <= i && i + n <= s.len() && #[trigger] run_at(s, i, n, p)
}

/// Length of the streak of equal occupied squares ending just before
/// position `i` of `s`.
pub open spec fn trail_len(s: Seq<Square>, i: int) -> int
    decreases i,
{
    if i <= 0 {
        0
    } else if s[i - 1] == Square::Empty {
        0
    } else if i >= 2 && s[i - 2] == s[i - 1] {
        trail_len(s, i - 1) + 1
    } else {
        1
    }
}

/// The streak never reaches back past the start.
proof fn lemma_trail_bounds(s: Seq<Square>, i: int)
    ensures
        0 <= trail_len(s, i) <= if i <= 0 {
            0
        } else {
            i
        },
    decreases i,
{
    if i > 0 {
        lemma_trail_bounds(s, i - 1);
    }
}

/// A streak of length t ending just before `i` is a run of `p` pieces,
/// `p` being the player of the streak's last square.
proof fn lemma_trail_run(s: Seq<Square>, i: int, p: Player)
    requires
        0 <= i <= s.len(),
        trail_len(s, i) > 0,
        s[i - 1] == Square::Played(p),
    ensures
        run_at(s, i - trail_len(s, i), trail_len(s, i), p),
        trail_len(s, i) <= i,
    decreases i,
{
    lemma_trail_bounds(s, i);
    if trail_len(s, i) > 1 {
        lemma_trail_run(s, i - 1, p);
    }
}

/// Conversely, equal pieces on positions j .. i force a streak of at
/// least i - j ending just before `i`.
proof fn lemma_run_trail(s: Seq<Square>, j: int, i: int, p: Player)
    requires
        0 <= j <= i <= s.len(),
        forall|k: int| j <= k < i ==> s[k] == Square::Played(p),
    ensures
        trail_len(s, i) >= i - j,
    decreases i - j,
{
    lemma_trail_bounds(s, i);
    if i > j {
        lemma_trail_bounds(s, i - 1);
        lemma_run_trail(s, j, i - 1, p);
        assert(s[i - 1] == Square::Played(p));
        if i - 1 > j {
            assert(s[i - 2] == Square::Played(p));
            assert(trail_len(s, i) == trail_len(s, i - 1) + 1);
        }
    }
}

/// The Connect-N engine: a board and the run length needed to win.
pub struct ConnectN {
    win_length: usize,
    board: Board,
}

impl ConnectN {
    /// The board being played on.
    pub closed spec fn spec_board(&self) -> Board {
        self.board
    }

    /// The run length needed to win.
    pub closed spec fn spec_win_length(&self) -> int {
        self.win_length as int
    }

    /// Gravity invariant: below every piece sits another piece, so
    /// pieces rest on the bottom edge or on each other.
    pub open spec fn stacked(b: Board) -> bool {
        forall|c: int, r: int|
            b.in_bounds(c, r) && #[trigger] b.cell(c, r) != Square::Empty && r + 1 < b.spec_rows()
                ==> b.cell(c, r + 1) != Square::Empty
    }

    /// Engine invariant: a well-formed board in a gravity-respecting
    /// state, and a positive win length.
    pub open spec fn inv(&self) -> bool {
        &&& self.spec_board().wf()
        &&& self.spec_win_length() >= 1
        &&& Self::stacked(self.spec_board())
    }

    /// Read access to the board, for rendering and inspection.
    pub fn board(&self) -> (b: &Board)
        ensures
            *b == self.spec_board(),
    {
        &self.board
    }

    /// A new engine over an empty `columns x rows` board.
    pub fn new(columns: usize, rows: usize, win_length: usize) -> (g: ConnectN)
        requires
            columns >= 1,
            rows >= 1,
            win_length >= 1,
        ensures
            g.inv(),
            g.spec_board().spec_columns() == columns,
            g.spec_board().spec_rows() == rows,
            g.spec_board().all_empty(),
            g.spec_win_length() == win_length,
    {
        match Board::new_rectangle(columns, rows) {
            Ok(board) => ConnectN { win_length, board },
            Err(_) => unreached(),
        }
    }

    /// One step of run tracking: an empty square breaks the streak, a
    /// piece extends it when it matches the previous square and starts
    /// a fresh streak otherwise.
    pub open spec fn spec_incremental_count(current: Square, last: Square, count: int) -> int {
        match current {
            Square::Empty => 0,
            Square::Played(_) => if last == current {
                count + 1
            } else {
                1
            },
        }
    }

    fn incremental_count(current: Square, last: Square, count: usize) -> (r: usize)
        requires
            count < usize::MAX,
        ensures
            r == Self::spec_incremental_count(current, last, count as int),
    {
        match current {
            Square::Empty => 0,
            Square::Played(_) => {
                if last == current {
                    count + 1
                } else {
                    1
                }
            },
        }
    }

    /// Scan the cursor once for a run of `to_win` equal pieces,
    /// stopping at the first one found and naming its player.
    pub fn detect_winning_line(&self, iterator: &mut BoardIterator, to_win: usize) -> (r: Option<
        Player,
    >)
        requires
            old(iterator).wf(),
            to_win >= 1,
        ensures
            final(iterator).wf(),
            match r {
                Some(p) => has_run(old(iterator).remaining(), to_win as int, p),
                None => forall|p: Player| !has_run(old(iterator).remaining(), to_win as int, p),
            },
    {
        let ghost s = old(iterator).remaining();
        let mut last = Square::Empty;
        let mut count: usize = 0;
        let ghost mut i: int = 0;
        loop
            invariant
                iterator.wf(),
                to_win >= 1,
                s == old(iterator).remaining(),
                0 <= i <= s.len(),
                iterator.remaining() == s.skip(i),
                count == trail_len(s, i),
                count < to_win,
                i > 0 ==> last == s[i - 1],
                i == 0 ==> last == Square::Empty,
                forall|j: int, p: Player| #![trigger run_at(s, j, to_win as int, p)]
                    0 <= j && j + to_win <= i ==> !run_at(s, j, to_win as int, p),
            decreases s.len() - i,
        {
            match iterator.next() {
                None => {
                    proof {
                        assert(s.skip(i).len() == s.len() - i);
                        assert forall|p: Player| !has_run(s, to_win as int, p) by {
                            if has_run(s, to_win as int, p) {
                                let j = choose|j: int|
                                    0 <= j && j + to_win <= s.len() && #[trigger] run_at(
                                        s,
                                        j,
                                        to_win as int,
                                        p,
                                    );
                                assert(!run_at(s, j, to_win as int, p));
                            }
                        }
                    }
                    return None;
                },
                Some(square) => {
                    proof {
                        assert(s.skip(i)[0] == s[i]);
                        assert(s.skip(i).drop_first() =~= s.skip(i + 1));
                    }
                    count = Self::incremental_count(square, last, count);
                    proof {
                        i = i + 1;
                        assert(count == trail_len(s, i));
                    }
                    if count >= to_win {
                        proof {
                            match square {
                                Square::Played(p) => {
                                    lemma_trail_run(s, i, p);
                                    assert(run_at(s, i - to_win, to_win as int, p));
                                },
                                Square::Empty => {
                                    assert(false);
                                },
                            }
                        }
                        return square.to_option();
                    }
                    proof {
                        assert forall|j: int, p: Player|
                            0 <= j && j + to_win <= i implies !run_at(s, j, to_win as int, p) by {
                            if j + to_win == i && run_at(s, j, to_win as int, p) {
                                lemma_run_trail(s, j, i, p);
                            }
                        }
                    }
                    last = square;
                },
            }
        }
    }
}

/// Player `p` has a run of `n` pieces somewhere on `b`: within a row,
/// within a column, or within a maximal diagonal of either direction.
pub open spec fn conn_win(b: Board, n: int, p: Player) -> bool {
    ||| exists|r: int|
        0 <= r < b.spec_rows() && #[trigger] has_run(line_seq(b, 0, r, 1, 0), n, p)
    ||| exists|c: int|
        0 <= c < b.spec_columns() && #[trigger] has_run(line_seq(b, c, 0, 0, 1), n, p)
    ||| exists|c: int, r: int, f: bool|
        is_origin(b, c, r, f) && #[trigger] has_run(diag_seq(b, c, r, f), n, p)
}

/// `st` is the correct status of board `b` under win length `n`.
pub open spec fn conn_status_ok(b: Board, n: int, st: GameStatus) -> bool {
    match st {
        GameStatus::Won(p) => conn_win(b, n, p),
        GameStatus::Drawn => b.full() && (forall|p: Player| !conn_win(b, n, p)),
        GameStatus::InProgress => !b.full() && (forall|p: Player| !conn_win(b, n, p)),
    }
}

/// A run needs an occupied square, so an empty board has no winner, and
/// is not full either.
pub proof fn lemma_empty_no_win(b: Board, n: int)
    requires
        b.wf(),
        b.all_empty(),
        n >= 1,
    ensures
        forall|p: Player| !conn_win(b, n, p),
        !b.full(),
{
    b.lemma_wf_dims();
    assert(b.in_bounds(0, 0) && b.cell(0, 0) == Square::Empty);
    assert forall|p: Player| !conn_win(b, n, p) by {
        if conn_win(b, n, p) {
            if exists|r: int|
                0 <= r < b.spec_rows() && #[trigger] has_run(line_seq(b, 0, r, 1, 0), n, p) {
                let r = choose|r: int|
                    0 <= r < b.spec_rows() && #[trigger] has_run(line_seq(b, 0, r, 1, 0), n, p);
                lemma_empty_no_run(b, 0, r, 1, 0, n, p);
            } else if exists|c: int|
                0 <= c < b.spec_columns() && #[trigger] has_run(line_seq(b, c, 0, 0, 1), n, p) {
                let c = choose|c: int|
                    0 <= c < b.spec_columns() && #[trigger] has_run(line_seq(b, c, 0, 0, 1), n, p);
                lemma_empty_no_run(b, c, 0, 0, 1, n, p);
            } else {
                let (c, r, f) = choose|c: int, r: int, f: bool|
                    is_origin(b, c, r, f) && #[trigger] has_run(diag_seq(b, c, r, f), n, p);
                lemma_empty_no_run(b, c, r, diag_step(f), 1, n, p);
            }
        }
    }
}

/// No line of an empty board holds a run.
proof fn lemma_empty_no_run(b: Board, c: int, r: int, dc: int, dr: int, n: int, p: Player)
    requires
        b.wf(),
        b.all_empty(),
        n >= 1,
    ensures
        !has_run(line_seq(b, c, r, dc, dr), n, p),
{
    if has_run(line_seq(b, c, r, dc, dr), n, p) {
        let s = line_seq(b, c, r, dc, dr);
        let i = choose|i: int| 0 <= i && i + n <= s.len() && #[trigger] run_at(s, i, n, p);
        assert(s[i] == Square::Played(p));
        lemma_line_seq_cells(b, c, r, dc, dr);
        let (cc, rr) = choose|cc: int, rr: int| b.in_bounds(cc, rr) && s[i] == b.cell(cc, rr);
        assert(false);
    }
}

impl ConnectN {
    /// The first winner found by scanning every qualifying diagonal,
    /// then every row, then every column; `None` exactly when no player
    /// has a run anywhere on the board.
    fn detect_win(&self) -> (r: Option<Player>)
        requires
            self.inv(),
        ensures
            match r {
                Some(p) => conn_win(self.spec_board(), self.spec_win_length(), p),
                None => forall|p: Player| !conn_win(self.spec_board(), self.spec_win_length(), p),
            },
    {
        let ghost b = self.spec_board();
        let ghost n = self.spec_win_length();
        match self.board.diagonal_iterator_iterator(self.win_length) {
            None => {
                proof {
                    lemma_no_diag_runs_short(b, n);
                }
            },
            Some(mut dii) => {
                proof {
                    lemma_dii_wf_bounds(dii);
                    assert forall|c: int, r: int, f: bool, p: Player|
                        is_origin(b, c, r, f) && sweep_index(b, c, r, f)
                            < dii.cur_index() implies !has_run(diag_seq(b, c, r, f), n, p) by {
                        lemma_short_line_no_run(b, c, r, f, n, p);
                    }
                }
                loop
                    invariant
                        b == self.spec_board(),
                        n == self.spec_win_length(),
                        self.inv(),
                        dii.wf(),
                        *dii.spec_board() == b,
                        dii.spec_minimum() == n,
                        dii.cur_index() <= sweep_total(b),
                        forall|c: int, r: int, f: bool, p: Player|
                            #![trigger has_run(diag_seq(b, c, r, f), n, p)]
                            is_origin(b, c, r, f) && sweep_index(b, c, r, f) < dii.cur_index()
                                ==> !has_run(diag_seq(b, c, r, f), n, p),
                    ensures
                        forall|c: int, r: int, f: bool, p: Player|
                            #![trigger has_run(diag_seq(b, c, r, f), n, p)]
                            is_origin(b, c, r, f) ==> !has_run(diag_seq(b, c, r, f), n, p),
                    decreases sweep_total(b) - dii.cur_index(),
                {
                    let ghost pc = dii.spec_column();
                    let ghost pr = dii.spec_row();
                    let ghost pf = dii.spec_forward();
                    let ghost pidx = dii.cur_index();
                    proof {
                        lemma_dii_wf_bounds(dii);
                    }
                    match dii.next() {
                        None => {
                            proof {
                                assert forall|c: int, r: int, f: bool, p: Player|
                                    is_origin(b, c, r, f) implies !has_run(
                                    diag_seq(b, c, r, f),
                                    n,
                                    p,
                                ) by {
                                    lemma_sweep_index_range(b, c, r, f);
                                }
                            }
                            break ;
                        },
                        Some(mut diagonal_iterator) => {
                            match self.detect_winning_line(&mut diagonal_iterator, self.win_length) {
                                Some(player) => {
                                    return Some(player);
                                },
                                None => {
                                    proof {
                                        lemma_dii_wf_bounds(dii);
                                        assert forall|c: int, r: int, f: bool, p: Player|
                                            is_origin(b, c, r, f) && sweep_index(b, c, r, f)
                                                < dii.cur_index() implies !has_run(
                                            diag_seq(b, c, r, f),
                                            n,
                                            p,
                                        ) by {
                                            if sweep_index(b, c, r, f) == pidx {
                                                lemma_sweep_injective(b, c, r, f, pc, pr, pf);
                                            } else if pidx < sweep_index(b, c, r, f) {
                                                lemma_short_line_no_run(b, c, r, f, n, p);
                                            }
                                        }
                                    }
                                },
                            }
                        },
                    }
                }
            },
        }
        let rows = self.board.rows();
        for row in 0..rows
            invariant
                b == self.spec_board(),
                n == self.spec_win_length(),
                rows == b.spec_rows(),
                self.inv(),
                forall|c: int, r: int, f: bool, p: Player|
                    #![trigger has_run(diag_seq(b, c, r, f), n, p)]
                    is_origin(b, c, r, f) ==> !has_run(diag_seq(b, c, r, f), n, p),
                forall|r: int, p: Player| #![trigger has_run(line_seq(b, 0, r, 1, 0), n, p)]
                    0 <= r < row ==> !has_run(line_seq(b, 0, r, 1, 0), n, p),
        {
            let mut horizontal_iterator = self.board.row_iterator(row);
            if let Some(player) = self.detect_winning_line(&mut horizontal_iterator, self.win_length) {
                return Some(player);
            }
        }
        let columns = self.board.columns();
        for column in 0..columns
            invariant
                b == self.spec_board(),
                n == self.spec_win_length(),
                columns == b.spec_columns(),
                self.inv(),
                forall|c: int, r: int, f: bool, p: Player|
                    #![trigger has_run(diag_seq(b, c, r, f), n, p)]
                    is_origin(b, c, r, f) ==> !has_run(diag_seq(b, c, r, f), n, p),
                forall|r: int, p: Player| #![trigger has_run(line_seq(b, 0, r, 1, 0), n, p)]
                    0 <= r < b.spec_rows() ==> !has_run(line_seq(b, 0, r, 1, 0), n, p),
                forall|c: int, p: Player| #![trigger has_run(line_seq(b, c, 0, 0, 1), n, p)]
                    0 <= c < column ==> !has_run(line_seq(b, c, 0, 0, 1), n, p),
        {
            let mut vertical_iterator = self.board.column_iterator(column);
            if let Some(player) = self.detect_winning_line(&mut vertical_iterator, self.win_length) {
                return Some(player);
            }
        }
        None
    }
}

/// Row index of the highest piece in column `c` at or below row `r`;
/// the number of rows when the column holds none.
pub open spec fn first_filled(b: Board, c: int, r: int) -> int
    decreases b.spec_rows() - r,
{
    if r >= b.spec_rows() {
        b.spec_rows()
    } else if b.cell(c, r) != Square::Empty {
        r
    } else {
        first_filled(b, c, r + 1)
    }
}

/// The row a piece dropped into column `c` settles on: just above the
/// column's highest piece, or the bottom row of an empty column.
pub open spec fn drop_row(b: Board, c: int) -> int {
    first_filled(b, c, 0) - 1
}

/// `first_filled` is the exact boundary between the empty top of a
/// column and its filled bottom.
proof fn lemma_first_filled_at(b: Board, c: int, r: int, k: int)
    requires
        b.wf(),
        0 <= r <= k <= b.spec_rows(),
        forall|j: int| r <= j < k ==> b.cell(c, j) == Square::Empty,
        k == b.spec_rows() || b.cell(c, k) != Square::Empty,
    ensures
        first_filled(b, c, r) == k,
    decreases k - r,
{
    if r < k {
        lemma_first_filled_at(b, c, r + 1, k);
    }
}

impl ConnectN {
    /// Drop a piece for `player` into column `column`: it settles on
    /// the lowest empty row of that column.
    #[verifier::rlimit(50)]
    fn play_drop(&mut self, column: usize, player: Player)
        requires
            old(self).inv(),
            0 <= column < old(self).spec_board().spec_columns(),
            old(self).spec_board().cell(column as int, 0) == Square::Empty,
        ensures
            final(self).inv(),
            final(self).spec_win_length() == old(self).spec_win_length(),
            final(self).spec_board().same_dims(&old(self).spec_board()),
            forall|cc: int, rr: int|
                old(self).spec_board().in_bounds(cc, rr) ==> final(self).spec_board().cell(cc, rr)
                    == (if cc == column && rr == drop_row(old(self).spec_board(), column as int) {
                    Square::Played(player)
                } else {
                    old(self).spec_board().cell(cc, rr)
                }),
    {
        let ghost b = self.spec_board();
        let rows = self.board.rows();
        let mut row: usize = 0;
        proof {
            b.lemma_wf_dims();
        }
        loop
            invariant
                *self == *old(self),
                b == self.spec_board(),
                b.wf(),
                rows == b.spec_rows(),
                rows >= 1,
                0 <= column < b.spec_columns(),
                b.cell(column as int, 0) == Square::Empty,
                0 <= row <= rows,
                forall|j: int| 0 <= j < row ==> b.cell(column as int, j) == Square::Empty,
            ensures
                1 <= row <= rows,
                forall|j: int| 0 <= j < row ==> b.cell(column as int, j) == Square::Empty,
                row == rows || b.cell(column as int, row as int) != Square::Empty,
            decreases rows - row,
        {
            match self.board.get_square(column, row) {
                Some(Square::Empty) => {
                    row = row + 1;
                },
                _ => {
                    break ;
                },
            }
        }
        proof {
            lemma_first_filled_at(b, column as int, 0, row as int);
        }
        row = row - 1;
        let _ = self.board.set_square(column, row, Square::Played(player));
        proof {
            assert forall|cc: int, rr: int|
                self.spec_board().in_bounds(cc, rr) && #[trigger] self.spec_board().cell(cc, rr)
                    != Square::Empty && rr + 1 < self.spec_board().spec_rows() implies self
                .spec_board()
                .cell(cc, rr + 1) != Square::Empty by {
                if !(cc == column && rr == row) {
                    assert(b.cell(cc, rr) != Square::Empty);
                }
            }
        }
    }

    /// The board is full exactly when its top row is: pieces stack, so
    /// a piece in the top row tops a full column.
    fn detect_draw(&self) -> (r: bool)
        requires
            self.inv(),
        ensures
            r <==> self.spec_board().full(),
    {
        let ghost b = self.spec_board();
        let ghost s = line_seq(b, 0, 0, 1, 0);
        proof {
            b.lemma_wf_dims();
            lemma_line_seq_len(b, 0, 0, 1, 0);
        }
        let mut row_iterator = self.board.row_iterator(0);
        let ghost mut i: int = 0;
        loop
            invariant
                self.inv(),
                b == self.spec_board(),
                s == line_seq(b, 0, 0, 1, 0),
                s.len() == b.spec_columns(),
                row_iterator.wf(),
                0 <= i <= s.len(),
                row_iterator.remaining() == s.skip(i),
                forall|c: int| 0 <= c < i ==> b.cell(c, 0) != Square::Empty,
            decreases s.len() - i,
        {
            match row_iterator.next() {
                None => {
                    proof {
                        assert(i == s.len());
                        assert forall|c: int, r: int|
                            b.in_bounds(c, r) implies #[trigger] b.cell(c, r)
                            != Square::Empty by {
                            lemma_row_seq_index(b, 0, 0, c);
                            lemma_stacked_column(b, c, r);
                        }
                    }
                    return true;
                },
                Some(Square::Empty) => {
                    proof {
                        assert(s.skip(i)[0] == s[i]);
                        lemma_row_seq_index(b, 0, 0, i);
                        assert(b.cell(i, 0) == Square::Empty);
                    }
                    return false;
                },
                Some(Square::Played(_)) => {
                    proof {
                        assert(s.skip(i)[0] == s[i]);
                        lemma_row_seq_index(b, 0, 0, i);
                        assert(s.skip(i).drop_first() =~= s.skip(i + 1));
                        i = i + 1;
                    }
                },
            }
        }
    }

}

/// In a stacked board, a piece in the top row of a column means the
/// whole column is filled.
proof fn lemma_stacked_column(b: Board, c: int, r: int)
    requires
        b.wf(),
        ConnectN::stacked(b),
        b.in_bounds(c, r),
        b.cell(c, 0) != Square::Empty,
    ensures
        b.cell(c, r) != Square::Empty,
    decreases r,
{
    if r > 0 {
        lemma_stacked_column(b, c, r - 1);
    }
}

impl Game for ConnectN {
    open spec fn wf(&self) -> bool {
        self.inv()
    }

    open spec fn inputs_spec(&self) -> int {
        1
    }

    open spec fn status_spec(&self, st: GameStatus) -> bool {
        conn_status_ok(self.spec_board(), self.spec_win_length(), st)
    }

    /// A move names one column. Outside the board it is rejected
    /// untouched; into a full column it is rejected untouched; otherwise
    /// the piece settles on the column's lowest empty row and the new
    /// status is returned.
    open spec fn play_spec(
        &self,
        pre: Self,
        player: Player,
        input: Seq<usize>,
        r: Result<GameStatus, GameError>,
    ) -> bool {
        let b = pre.spec_board();
        let c = input[0] as int;
        &&& self.spec_win_length() == pre.spec_win_length()
        &&& if c >= b.spec_columns() {
            r == Result::<GameStatus, GameError>::Err(GameError::OutOfBounds) && *self == pre
        } else if b.cell(c, 0) != Square::Empty {
            r == Result::<GameStatus, GameError>::Err(GameError::SquareNotEmpty) && *self == pre
        } else {
            &&& self.spec_board().same_dims(&b)
            &&& forall|cc: int, rr: int|
                b.in_bounds(cc, rr) ==> self.spec_board().cell(cc, rr) == (if cc == c && rr
                    == drop_row(b, c) {
                    Square::Played(player)
                } else {
                    b.cell(cc, rr)
                })
            &&& r matches Ok(st) && conn_status_ok(self.spec_board(), self.spec_win_length(), st)
        }
    }

    /// Reset clears every square, keeps the dimensions and the win
    /// length, and leaves a game that is in progress again.
    open spec fn reset_spec(&self, pre: Self) -> bool {
        &&& self.spec_board().same_dims(&pre.spec_board())
        &&& self.spec_board().all_empty()
        &&& self.spec_win_length() == pre.spec_win_length()
        &&& conn_status_ok(self.spec_board(), self.spec_win_length(), GameStatus::InProgress)
    }

    fn get_status(&self) -> (st: GameStatus) {
        if let Some(player) = self.detect_win() {
            GameStatus::Won(player)
        } else if self.detect_draw() {
            GameStatus::Drawn
        } else {
            GameStatus::InProgress
        }
    }

    fn play(&mut self, player: Player, input: &Vec<usize>) -> (r: Result<GameStatus, GameError>) {
        let column = input[0];
        if column >= self.board.columns() {
            return Err(GameError::OutOfBounds);
        }
        proof {
            self.board.lemma_wf_dims();
        }
        match self.board.get_square(column, 0) {
            Some(Square::Played(_)) => Err(GameError::SquareNotEmpty),
            Some(Square::Empty) => {
                self.play_drop(column, player);
                Ok(self.get_status())
            },
            None => Err(GameError::OutOfBounds),
        }
    }

    fn reset(&mut self) {
        self.board.reset();
        proof {
            lemma_empty_no_win(self.spec_board(), self.spec_win_length());
        }
    }

    fn num_inputs(&self) -> (n: usize) {
        1
    }
}

/// A line shorter than `n` holds no run of `n`.
proof fn lemma_short_line_no_run(b: Board, c: int, r: int, f: bool, n: int, p: Player)
    requires
        b.wf(),
        diag_len(b, c, r, f) < n,
    ensures
        !has_run(diag_seq(b, c, r, f), n, p),
{
    lemma_line_seq_len(b, c, r, diag_step(f), 1);
}

/// When even the longest diagonal is shorter than `n`, no maximal
/// diagonal holds a run of `n`.
proof fn lemma_no_diag_runs_short(b: Board, n: int)
    requires
        b.wf(),
        n > min_int(b.spec_columns(), b.spec_rows()),
    ensures
        forall|c: int, r: int, f: bool, p: Player|
            #![trigger has_run(diag_seq(b, c, r, f), n, p)]
            is_origin(b, c, r, f) ==> !has_run(diag_seq(b, c, r, f), n, p),
{
    assert forall|c: int, r: int, f: bool, p: Player|
        is_origin(b, c, r, f) implies !has_run(diag_seq(b, c, r, f), n, p) by {
        lemma_diag_len_at_most(b, c, r, f);
        lemma_short_line_no_run(b, c, r, f, n, p);
    }
}

} // verus!
