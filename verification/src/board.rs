//! The board: a rectangular grid of squares addressed by (column, row),
//! cursors that walk a straight line across it, and an enumerator that
//! visits every diagonal of at least a given length exactly once.

use vstd::prelude::*;

use crate::game::GameError;

verus! {

/// One of the two players.
#[derive(Debug, Copy, Clone, PartialEq, Eq, Structural)]
pub enum Player {
    X,
    O,
}

/// The occupancy of one board position.
#[derive(Debug, Copy, Clone, PartialEq, Eq, Structural)]
pub enum Square {
    Played(Player),
    Empty,
}

impl Square {
    /// The player holding this square, if any.
    pub open spec fn spec_to_option(self) -> Option<Player> {
        match self {
            Square::Empty => None,
            Square::Played(player) => Some(player),
        }
    }

    pub fn to_option(&self) -> (r: Option<Player>)
        ensures
            r == self.spec_to_option(),
    {
        match self {
            Square::Empty => None,
            Square::Played(player) => Some(*player),
        }
    }
}

/// A rectangular `columns x rows` grid of squares, indexed by
/// (column, row), both zero-based. Dimensions are fixed at construction
/// and at least one each.
#[derive(Debug, Clone)]
pub struct Board {
    cells: Vec<Vec<Square>>,
}

impl Board {
    /// Number of columns.
    pub closed spec fn spec_columns(&self) -> int {
        self.cells@.len() as int
    }

    /// Number of rows.
    pub closed spec fn spec_rows(&self) -> int {
        self.cells@[0]@.len() as int
    }

    /// The square at (column `c`, row `r`).
    pub closed spec fn cell(&self, c: int, r: int) -> Square {
        self.cells@[c]@[r]
    }

    /// Structural invariant: at least one column and one row, and every
    /// column holds the same number of rows.
    pub closed spec fn wf(&self) -> bool {
        &&& self.cells@.len() >= 1
        &&& self.cells@[0]@.len() >= 1
        &&& forall|i: int|
            0 <= i < self.cells@.len() ==> (#[trigger] self.cells@[i]@.len())
                == self.cells@[0]@.len()
    }

    /// A well-formed board has at least one column and one row.
    pub proof fn lemma_wf_dims(&self)
        requires
            self.wf(),
        ensures
            self.spec_columns() >= 1,
            self.spec_rows() >= 1,
    {
    }

    /// (c, r) addresses a square of this board.
    pub open spec fn in_bounds(&self, c: int, r: int) -> bool {
        0 <= c < self.spec_columns() && 0 <= r < self.spec_rows()
    }

    /// Every square of the board is empty.
    pub open spec fn all_empty(&self) -> bool {
        forall|c: int, r: int| self.in_bounds(c, r) ==> #[trigger] self.cell(c, r) == Square::Empty
    }

    /// Every square of the board is occupied.
    pub open spec fn full(&self) -> bool {
        forall|c: int, r: int| self.in_bounds(c, r) ==> #[trigger] self.cell(c, r) != Square::Empty
    }

    /// `other` has the same dimensions as this board.
    pub open spec fn same_dims(&self, other: &Board) -> bool {
        self.spec_columns() == other.spec_columns() && self.spec_rows() == other.spec_rows()
    }

    /// A square board, all squares empty. Rejected when `size` is zero.
    pub fn new(size: usize) -> (r: Result<Board, GameError>)
        ensures
            size == 0 <==> r == Result::<Board, GameError>::Err(GameError::InvalidDimensions),
            size != 0 <==> r is Ok,
            r matches Ok(b) ==> b.wf() && b.spec_columns() == size && b.spec_rows() == size
                && b.all_empty(),
    {
        Board::new_rectangle(size, size)
    }

    /// A `columns x rows` board, all squares empty. Rejected when either
    /// dimension is zero.
    pub fn new_rectangle(columns: usize, rows: usize) -> (r: Result<Board, GameError>)
        ensures
            columns == 0 || rows == 0 <==> r == Result::<Board, GameError>::Err(
                GameError::InvalidDimensions,
            ),
            columns != 0 && rows != 0 <==> r is Ok,
            r matches Ok(b) ==> b.wf() && b.spec_columns() == columns && b.spec_rows() == rows
                && b.all_empty(),
    {
        if columns == 0 || rows == 0 {
            return Err(GameError::InvalidDimensions);
        }
        let mut cells: Vec<Vec<Square>> = Vec::new();
        for c in 0..columns
            invariant
                cells@.len() == c,
                forall|i: int|
                    0 <= i < c ==> (#[trigger] cells@[i]@) =~= Seq::new(
                        rows as nat,
                        |j: int| Square::Empty,
                    ),
        {
            let mut column: Vec<Square> = Vec::new();
            for r in 0..rows
                invariant
                    column@ =~= Seq::new(r as nat, |j: int| Square::Empty),
            {
                column.push(Square::Empty);
            }
            cells.push(column);
        }
        let board = Board { cells };
        Ok(board)
    }

    pub fn columns(&self) -> (n: usize)
        ensures
            n == self.spec_columns(),
    {
        self.cells.len()
    }

    pub fn rows(&self) -> (n: usize)
        requires
            self.wf(),
        ensures
            n == self.spec_rows(),
    {
        self.cells[0].len()
    }

    /// The square at (column, row), or `None` outside the board.
    pub fn get_square(&self, column: usize, row: usize) -> (r: Option<Square>)
        requires
            self.wf(),
        ensures
            r == if self.in_bounds(column as int, row as int) {
                Some(self.cell(column as int, row as int))
            } else {
                None::<Square>
            },
    {
        if column >= self.columns() || row >= self.rows() {
            None
        } else {
            Some(self.cells[column][row])
        }
    }

    /// Overwrite the square at (column, row) unconditionally; rejected
    /// outside the board, leaving the board unchanged.
    pub fn set_square(&mut self, column: usize, row: usize, square: Square) -> (r: Result<
        (),
        GameError,
    >)
        requires
            old(self).wf(),
        ensures
            final(self).wf(),
            final(self).same_dims(old(self)),
            !old(self).in_bounds(column as int, row as int) ==> r == Result::<(), GameError>::Err(
                GameError::OutOfBounds,
            ) && *final(self) == *old(self),
            old(self).in_bounds(column as int, row as int) ==> r == Result::<(), GameError>::Ok(())
                && (forall|c: int, r2: int|
                old(self).in_bounds(c, r2) ==> final(self).cell(c, r2) == (if c == column && r2
                    == row {
                    square
                } else {
                    old(self).cell(c, r2)
                })),
    {
        if column >= self.columns() || row >= self.rows() {
            return Err(GameError::OutOfBounds);
        }
        self.cells[column][row] = square;
        Ok(())
    }

    /// Set every square back to empty; dimensions unchanged.
    pub fn reset(&mut self)
        requires
            old(self).wf(),
        ensures
            final(self).wf(),
            final(self).same_dims(old(self)),
            final(self).all_empty(),
    {
        let columns = self.columns();
        let rows = self.rows();
        for column in 0..columns
            invariant
                self.wf(),
                columns == self.spec_columns(),
                rows == self.spec_rows(),
                forall|c: int, r: int|
                    0 <= c < column && 0 <= r < rows ==> #[trigger] self.cell(c, r)
                        == Square::Empty,
        {
            for row in 0..rows
                invariant
                    self.wf(),
                    columns == self.spec_columns(),
                    rows == self.spec_rows(),
                    column < columns,
                    forall|c: int, r: int|
                        0 <= c < column && 0 <= r < rows ==> #[trigger] self.cell(c, r)
                            == Square::Empty,
                    forall|r: int|
                        0 <= r < row ==> #[trigger] self.cell(column as int, r) == Square::Empty,
            {
                let _ = self.set_square(column, row, Square::Empty);
            }
        }
    }
}

/// Smaller of two integers.
pub open spec fn min_int(a: int, b: int) -> int {
    if a <= b {
        a
    } else {
        b
    }
}

/// How many squares a cursor starting at (c, r) and stepping by
/// (dc, dr) each time visits before leaving the board.
pub open spec fn line_len(b: Board, c: int, r: int, dc: int, dr: int) -> int {
    if !b.in_bounds(c, r) || (dc == 0 && dr == 0) {
        0
    } else {
        let col_budget = if dc > 0 {
            b.spec_columns() - c
        } else {
            c + 1
        };
        let row_budget = if dr > 0 {
            b.spec_rows() - r
        } else {
            r + 1
        };
        if dc == 0 {
            row_budget
        } else if dr == 0 {
            col_budget
        } else {
            min_int(col_budget, row_budget)
        }
    }
}

/// The squares a cursor starting at (c, r) with step (dc, dr) visits,
/// in visiting order.
pub open spec fn line_seq(b: Board, c: int, r: int, dc: int, dr: int) -> Seq<Square>
    decreases line_len(b, c, r, dc, dr),
{
    if line_len(b, c, r, dc, dr) <= 0 {
        Seq::empty()
    } else {
        seq![b.cell(c, r)] + line_seq(b, c + dc, r + dr, dc, dr)
    }
}

/// A line with unit steps holds exactly `line_len` squares.
pub proof fn lemma_line_seq_len(b: Board, c: int, r: int, dc: int, dr: int)
    requires
        -1 <= dc <= 1,
        -1 <= dr <= 1,
    ensures
        line_seq(b, c, r, dc, dr).len() == if line_len(b, c, r, dc, dr) <= 0 {
            0
        } else {
            line_len(b, c, r, dc, dr)
        },
    decreases line_len(b, c, r, dc, dr),
{
    if line_len(b, c, r, dc, dr) > 0 {
        lemma_line_seq_len(b, c + dc, r + dr, dc, dr);
    }
}

/// Every square of a line is a square of the board.
pub proof fn lemma_line_seq_cells(b: Board, c: int, r: int, dc: int, dr: int)
    ensures
        forall|i: int|
            0 <= i < line_seq(b, c, r, dc, dr).len() ==> exists|cc: int, rr: int|
                b.in_bounds(cc, rr) && #[trigger] line_seq(b, c, r, dc, dr)[i] == b.cell(cc, rr),
    decreases line_len(b, c, r, dc, dr),
{
    if line_len(b, c, r, dc, dr) > 0 {
        lemma_line_seq_cells(b, c + dc, r + dr, dc, dr);
        assert forall|i: int| 0 <= i < line_seq(b, c, r, dc, dr).len() implies exists|
            cc: int,
            rr: int,
        |
            b.in_bounds(cc, rr) && #[trigger] line_seq(b, c, r, dc, dr)[i] == b.cell(
                cc,
                rr,
            ) by {
            if i == 0 {
                assert(b.in_bounds(c, r) && line_seq(b, c, r, dc, dr)[0] == b.cell(c, r));
            } else {
                assert(line_seq(b, c, r, dc, dr)[i] == line_seq(b, c + dc, r + dr, dc, dr)[i - 1]);
            }
        }
    }
}

/// A horizontal line (step (+1, 0)) visits the cells of its row in
/// column order.
pub proof fn lemma_row_seq_index(b: Board, c: int, r: int, i: int)
    requires
        0 <= i < line_seq(b, c, r, 1, 0).len(),
    ensures
        line_seq(b, c, r, 1, 0)[i] == b.cell(c + i, r),
        b.in_bounds(c + i, r),
    decreases i,
{
    lemma_line_seq_len(b, c, r, 1, 0);
    if i == 0 {
    } else {
        lemma_line_seq_len(b, c + 1, r, 1, 0);
        lemma_row_seq_index(b, c + 1, r, i - 1);
    }
}

/// (c, r) starts a maximal forward diagonal: one stepping by (+1, +1).
pub open spec fn fwd_origin(b: Board, c: int, r: int) -> bool {
    b.in_bounds(c, r) && (c == 0 || r == 0)
}

/// (c, r) starts a maximal backward diagonal: one stepping by (-1, +1).
pub open spec fn bwd_origin(b: Board, c: int, r: int) -> bool {
    b.in_bounds(c, r) && (c == b.spec_columns() - 1 || r == 0)
}

/// (c, r) starts a maximal diagonal in the given direction.
pub open spec fn is_origin(b: Board, c: int, r: int, forward: bool) -> bool {
    if forward {
        fwd_origin(b, c, r)
    } else {
        bwd_origin(b, c, r)
    }
}

/// The column step of a diagonal in the given direction.
pub open spec fn diag_step(forward: bool) -> int {
    if forward {
        1
    } else {
        -1
    }
}

/// Length of the diagonal starting at (c, r).
pub open spec fn diag_len(b: Board, c: int, r: int, forward: bool) -> int {
    line_len(b, c, r, diag_step(forward), 1)
}

/// The squares of the diagonal starting at (c, r), in stepping order.
pub open spec fn diag_seq(b: Board, c: int, r: int, forward: bool) -> Seq<Square> {
    line_seq(b, c, r, diag_step(forward), 1)
}

/// Position of an origin in the sweep that visits every forward origin
/// (left edge bottom to top, then top edge left to right) and then
/// every backward origin (right edge bottom to top, then top edge right
/// to left).
pub open spec fn sweep_index(b: Board, c: int, r: int, forward: bool) -> int {
    let cols = b.spec_columns();
    let rows = b.spec_rows();
    if forward {
        if c == 0 {
            rows - 1 - r
        } else {
            rows - 1 + c
        }
    } else {
        (rows + cols - 1) + (if c == cols - 1 {
            rows - 1 - r
        } else {
            rows - 1 + (cols - 1 - c)
        })
    }
}

/// Number of origins the sweep visits in all.
pub open spec fn sweep_total(b: Board) -> int {
    2 * (b.spec_rows() + b.spec_columns() - 1)
}

/// No origin earlier than sweep position `k` starts a diagonal of
/// length `minimum` or more.
pub open spec fn no_qualifying_before(b: Board, minimum: int, k: int) -> bool {
    forall|c: int, r: int, f: bool| #![trigger is_origin(b, c, r, f)]
        is_origin(b, c, r, f) && sweep_index(b, c, r, f) < k ==> diag_len(b, c, r, f) < minimum
}

/// Every origin sits somewhere in the sweep.
pub proof fn lemma_sweep_index_range(b: Board, c: int, r: int, f: bool)
    requires
        b.wf(),
        is_origin(b, c, r, f),
    ensures
        0 <= sweep_index(b, c, r, f) < sweep_total(b),
{
}

/// No two origins share a sweep position.
pub proof fn lemma_sweep_injective(
    b: Board,
    c1: int,
    r1: int,
    f1: bool,
    c2: int,
    r2: int,
    f2: bool,
)
    requires
        b.wf(),
        is_origin(b, c1, r1, f1),
        is_origin(b, c2, r2, f2),
        sweep_index(b, c1, r1, f1) == sweep_index(b, c2, r2, f2),
    ensures
        c1 == c2 && r1 == r2 && f1 == f2,
{
}

/// A maximal diagonal is never longer than the shorter board dimension,
/// and never empty.
pub proof fn lemma_diag_len_at_most(b: Board, c: int, r: int, f: bool)
    requires
        b.wf(),
        is_origin(b, c, r, f),
    ensures
        1 <= diag_len(b, c, r, f) <= min_int(b.spec_columns(), b.spec_rows()),
{
}

/// The diagonal from the lower left corner reaches the full shorter
/// dimension.
pub proof fn lemma_longest_diag(b: Board)
    requires
        b.wf(),
    ensures
        is_origin(b, 0, 0, true),
        diag_len(b, 0, 0, true) == min_int(b.spec_columns(), b.spec_rows()),
{
}

/// A cursor over the squares along one straight line of a board: it
/// starts at (column, row) and advances by (column_direction,
/// row_direction) until either coordinate leaves the board.
#[derive(Debug)]
pub struct BoardIterator<'a> {
    board: &'a Board,
    row: usize,
    column: usize,
    row_direction: i8,
    column_direction: i8,
}

impl<'a> BoardIterator<'a> {
    /// The board this cursor reads.
    pub closed spec fn spec_board(&self) -> &'a Board {
        self.board
    }

    /// Cursor invariant: the board is well formed and the step is one
    /// of the supported directions (not both zero, row never upward).
    pub closed spec fn wf(&self) -> bool {
        &&& self.board.wf()
        &&& -1 <= self.column_direction <= 1
        &&& 0 <= self.row_direction <= 1
        &&& !(self.column_direction == 0 && self.row_direction == 0)
    }

    /// The squares this cursor has yet to produce, in order.
    pub closed spec fn remaining(&self) -> Seq<Square> {
        line_seq(
            *self.board,
            self.column as int,
            self.row as int,
            self.column_direction as int,
            self.row_direction as int,
        )
    }

    /// Produce the square under the cursor and step, or `None` once the
    /// cursor has left the board.
    pub fn next(&mut self) -> (r: Option<Square>)
        requires
            old(self).wf(),
        ensures
            final(self).wf(),
            final(self).spec_board() == old(self).spec_board(),
            old(self).remaining().len() == 0 ==> r == None::<Square> && final(self).remaining()
                == old(self).remaining(),
            old(self).remaining().len() > 0 ==> r == Some(old(self).remaining()[0])
                && final(self).remaining() == old(self).remaining().drop_first(),
    {
        proof {
            lemma_line_seq_len(
                *self.board,
                self.column as int,
                self.row as int,
                self.column_direction as int,
                self.row_direction as int,
            );
        }
        let columns = self.board.columns();
        let rows = self.board.rows();
        if self.column >= columns || self.row >= rows {
            return None;
        }
        let square = match self.board.get_square(self.column, self.row) {
            Some(square) => square,
            None => unreached(),
        };
        // Step; a move off the left edge parks the cursor just past the
        // right edge, which the bounds test above treats as exhausted.
        if self.column_direction > 0 {
            self.column = self.column + 1;
        } else if self.column_direction < 0 {
            if self.column == 0 {
                self.column = columns;
            } else {
                self.column = self.column - 1;
            }
        }
        if self.row_direction > 0 {
            self.row = self.row + 1;
        }
        proof {
            lemma_line_seq_len(
                *self.board,
                self.column as int,
                self.row as int,
                self.column_direction as int,
                self.row_direction as int,
            );
            assert(self.remaining() =~= old(self).remaining().drop_first());
        }
        Some(square)
    }
}

/// Enumerates every maximal diagonal of a board whose length reaches a
/// given minimum, each exactly once, as a sequence of line cursors.
/// Between calls it always rests either on a qualifying origin (the one
/// the next call will yield) or past the end of the sweep.
///
/// An origin is enumerated once per direction, so a cell on both a
/// forward and a backward origin (the single cell of a 1 x 1 board,
/// say) is surfaced twice, once with each step.
#[derive(Debug)]
pub struct DiagonalIteratorIterator<'a> {
    board: &'a Board,
    minimum_size: usize,
    row: usize,
    column: usize,
    forward: bool,
}

impl<'a> DiagonalIteratorIterator<'a> {
    /// The board whose diagonals are enumerated.
    pub closed spec fn spec_board(&self) -> &'a Board {
        self.board
    }

    /// The minimum diagonal length an origin must reach to be yielded.
    pub closed spec fn spec_minimum(&self) -> int {
        self.minimum_size as int
    }

    /// Current origin column of the sweep.
    pub closed spec fn spec_column(&self) -> int {
        self.column as int
    }

    /// Current origin row of the sweep.
    pub closed spec fn spec_row(&self) -> int {
        self.row as int
    }

    /// Whether the sweep currently walks forward diagonals.
    pub closed spec fn spec_forward(&self) -> bool {
        self.forward
    }

    /// The sweep has visited every origin.
    pub closed spec fn done(&self) -> bool {
        !(self.column < self.board.spec_columns())
    }

    /// The sweep rests on a maximal-diagonal origin.
    pub closed spec fn pos_valid(&self) -> bool {
        is_origin(*self.board, self.column as int, self.row as int, self.forward)
    }

    /// Position in the sweep order; the total once exhausted.
    pub closed spec fn cur_index(&self) -> int {
        if self.done() {
            sweep_total(*self.board)
        } else {
            sweep_index(*self.board, self.column as int, self.row as int, self.forward)
        }
    }

    /// Enumerator invariant: exhausted, or resting on an origin whose
    /// diagonal qualifies.
    pub closed spec fn wf(&self) -> bool {
        &&& self.board.wf()
        &&& self.done() || (self.pos_valid() && diag_len(
            *self.board,
            self.column as int,
            self.row as int,
            self.forward,
        ) >= self.minimum_size)
    }

    /// Length of the diagonal from the sweep's current position, or
    /// `None` once the position has left the board.
    pub fn calculate_diagonal_length(&self) -> (r: Option<usize>)
        requires
            self.spec_board().wf(),
        ensures
            r == if self.spec_board().in_bounds(self.spec_column(), self.spec_row()) {
                Some(
                    diag_len(
                        *self.spec_board(),
                        self.spec_column(),
                        self.spec_row(),
                        self.spec_forward(),
                    ) as usize,
                )
            } else {
                None::<usize>
            },
    {
        let columns = self.board.columns();
        let rows = self.board.rows();
        let mut column = self.column;
        let mut row = self.row;
        let ghost c0 = self.column as int;
        let ghost r0 = self.row as int;
        if column >= columns || row >= rows {
            return None;
        }
        let mut total: usize = 0;
        if self.forward {
            while column < columns && row < rows
                invariant
                    columns == self.spec_board().spec_columns(),
                    rows == self.spec_board().spec_rows(),
                    0 <= c0 < columns,
                    0 <= r0 < rows,
                    column == c0 + total,
                    row == r0 + total,
                    column <= columns,
                    row <= rows,
                decreases columns - column,
            {
                column = column + 1;
                row = row + 1;
                total = total + 1;
            }
            Some(total)
        } else {
            while column > 0 && row < rows
                invariant
                    columns == self.spec_board().spec_columns(),
                    rows == self.spec_board().spec_rows(),
                    0 <= c0 < columns,
                    0 <= r0 < rows,
                    column == c0 - total,
                    row == r0 + total,
                    row <= rows,
                decreases column,
            {
                column = column - 1;
                row = row + 1;
                total = total + 1;
            }
            if column == 0 && row < rows {
                Some(total + 1)
            } else {
                Some(total)
            }
        }
    }

    /// Move the sweep to the next origin: down the current edge, then
    /// along the top, switching from forward to backward diagonals when
    /// the forward origins run out. `false` once every origin has been
    /// visited.
    fn increment_origin(&mut self) -> (r: bool)
        requires
            old(self).spec_board().wf(),
            old(self).pos_valid(),
        ensures
            final(self).spec_board() == old(self).spec_board(),
            final(self).spec_minimum() == old(self).spec_minimum(),
            r == (old(self).cur_index() + 1 < sweep_total(*old(self).spec_board())),
            r ==> final(self).pos_valid() && final(self).cur_index() == old(self).cur_index() + 1,
            !r ==> final(self).done(),
    {
        let columns = self.board.columns();
        let rows = self.board.rows();
        if self.row > 0 {
            self.row = self.row - 1;
        } else {
            if self.forward {
                self.column = self.column + 1;
                if self.column >= columns {
                    self.forward = false;
                    self.column = self.column - 1;
                    self.row = rows - 1;
                }
            } else {
                if self.column == 0 {
                    self.column = usize::MAX;
                    return false;
                }
                self.column = self.column - 1;
            }
        }
        true
    }

    /// Start a sweep over every diagonal of length at least
    /// `minimum_size`. `None` exactly when even the longest diagonal
    /// falls short, so the enumeration would be empty.
    pub fn new(board: &'a Board, minimum_size: usize) -> (r: Option<DiagonalIteratorIterator<'a>>)
        requires
            board.wf(),
        ensures
            r is Some <==> minimum_size <= min_int(board.spec_columns(), board.spec_rows()),
            r matches Some(dii) ==> dii.wf() && dii.spec_board() == board && dii.spec_minimum()
                == minimum_size && !dii.done() && no_qualifying_before(
                *board,
                minimum_size as int,
                dii.cur_index(),
            ),
    {
        let rows = board.rows();
        let mut dii = DiagonalIteratorIterator {
            board,
            minimum_size,
            row: rows - 1,
            column: 0,
            forward: true,
        };
        loop
            invariant
                board.wf(),
                rows == board.spec_rows(),
                dii.spec_board() == board,
                dii.spec_minimum() == minimum_size,
                dii.pos_valid(),
                no_qualifying_before(*board, minimum_size as int, dii.cur_index()),
            decreases sweep_total(*board) - dii.cur_index(),
        {
            match dii.calculate_diagonal_length() {
                None => {
                    return None;
                },
                Some(length) => {
                    if length >= minimum_size {
                        proof {
                            lemma_diag_len_at_most(
                                *board,
                                dii.spec_column(),
                                dii.spec_row(),
                                dii.spec_forward(),
                            );
                            lemma_sweep_index_range(
                                *board,
                                dii.spec_column(),
                                dii.spec_row(),
                                dii.spec_forward(),
                            );
                        }
                        return Some(dii);
                    }
                    let ghost pc = dii.spec_column();
                    let ghost pr = dii.spec_row();
                    let ghost pf = dii.spec_forward();
                    proof {
                        lemma_diag_len_at_most(*board, pc, pr, pf);
                        lemma_sweep_index_range(*board, pc, pr, pf);
                    }
                    if !dii.increment_origin() {
                        proof {
                            lemma_no_qualifying_step(*board, minimum_size as int, pc, pr, pf);
                            lemma_no_qualifying_at_all(*board, minimum_size as int);
                        }
                        return None;
                    }
                    proof {
                        lemma_no_qualifying_step(*board, minimum_size as int, pc, pr, pf);
                    }
                },
            }
        }
    }
}

impl<'a> DiagonalIteratorIterator<'a> {
    /// Yield a cursor over the diagonal whose origin the sweep rests
    /// on, then advance to the next qualifying origin (or past the
    /// end). `None` exactly once the sweep is exhausted. Every cursor
    /// yielded covers at least the minimum length, and no qualifying
    /// origin is ever passed over.
    pub fn next(&mut self) -> (r: Option<BoardIterator<'a>>)
        requires
            old(self).wf(),
        ensures
            final(self).wf(),
            final(self).spec_board() == old(self).spec_board(),
            final(self).spec_minimum() == old(self).spec_minimum(),
            r is Some <==> !old(self).done(),
            old(self).done() ==> *final(self) == *old(self),
            !old(self).done() ==> old(self).cur_index() < final(self).cur_index(),
            r matches Some(it) ==> it.wf() && it.spec_board() == old(self).spec_board()
                && is_origin(
                *old(self).spec_board(),
                old(self).spec_column(),
                old(self).spec_row(),
                old(self).spec_forward(),
            ) && sweep_index(
                *old(self).spec_board(),
                old(self).spec_column(),
                old(self).spec_row(),
                old(self).spec_forward(),
            ) == old(self).cur_index() && it.remaining() == diag_seq(
                *old(self).spec_board(),
                old(self).spec_column(),
                old(self).spec_row(),
                old(self).spec_forward(),
            ) && it.remaining().len() >= old(self).spec_minimum(),
            forall|c: int, r2: int, f: bool|
                #![trigger is_origin(*old(self).spec_board(), c, r2, f)]
                is_origin(*old(self).spec_board(), c, r2, f) && old(self).cur_index()
                    < sweep_index(*old(self).spec_board(), c, r2, f) < final(self).cur_index()
                    ==> diag_len(*old(self).spec_board(), c, r2, f) < old(self).spec_minimum(),
    {
        let columns = self.board.columns();
        let rows = self.board.rows();
        if self.column >= columns {
            return None;
        }
        let ghost gb = *self.board;
        let ghost gm = self.spec_minimum();
        let ghost oc = self.spec_column();
        let ghost orr = self.spec_row();
        let ghost of = self.spec_forward();
        let ghost oidx = self.cur_index();
        let result = BoardIterator {
            board: self.board,
            row: self.row,
            column: self.column,
            row_direction: 1,
            column_direction: if self.forward {
                1
            } else {
                -1
            },
        };
        proof {
            lemma_line_seq_len(gb, oc, orr, diag_step(of), 1);
            lemma_sweep_index_range(gb, oc, orr, of);
        }
        if !self.increment_origin() {
            return Some(result);
        }
        loop
            invariant
                gb.wf(),
                gb == *old(self).spec_board(),
                gm == old(self).spec_minimum(),
                oc == old(self).spec_column(),
                orr == old(self).spec_row(),
                of == old(self).spec_forward(),
                oidx == old(self).cur_index(),
                !old(self).done(),
                self.spec_board() == old(self).spec_board(),
                self.spec_minimum() == old(self).spec_minimum(),
                rows == gb.spec_rows(),
                self.pos_valid(),
                oidx < self.cur_index(),
                is_origin(gb, oc, orr, of),
                sweep_index(gb, oc, orr, of) == oidx,
                result.wf(),
                result.spec_board() == old(self).spec_board(),
                result.remaining() == diag_seq(gb, oc, orr, of),
                result.remaining().len() >= gm,
                forall|c: int, r2: int, f: bool|
                    #![trigger is_origin(gb, c, r2, f)]
                    is_origin(gb, c, r2, f) && oidx < sweep_index(gb, c, r2, f)
                        < self.cur_index() ==> diag_len(gb, c, r2, f) < gm,
            decreases sweep_total(gb) - self.cur_index(),
        {
            match self.calculate_diagonal_length() {
                None => {
                    return Some(result);
                },
                Some(length) => {
                    if length >= self.minimum_size {
                        return Some(result);
                    }
                    let ghost pc = self.spec_column();
                    let ghost pr = self.spec_row();
                    let ghost pf = self.spec_forward();
                    proof {
                        lemma_diag_len_at_most(gb, pc, pr, pf);
                        lemma_sweep_index_range(gb, pc, pr, pf);
                    }
                    let advanced = self.increment_origin();
                    proof {
                        assert forall|c: int, r2: int, f: bool|
                            is_origin(gb, c, r2, f) && oidx < sweep_index(gb, c, r2, f)
                                < self.cur_index() implies diag_len(gb, c, r2, f) < gm by {
                            if sweep_index(gb, c, r2, f) == sweep_index(gb, pc, pr, pf) {
                                lemma_sweep_injective(gb, c, r2, f, pc, pr, pf);
                            }
                        }
                    }
                    if !advanced {
                        return Some(result);
                    }
                },
            }
        }
    }
}

impl Board {
    fn iterator(&self, column: usize, row: usize, column_direction: i8, row_direction: i8) -> (it:
        BoardIterator)
        requires
            self.wf(),
            -1 <= column_direction <= 1,
            0 <= row_direction <= 1,
            !(column_direction == 0 && row_direction == 0),
        ensures
            it.wf(),
            it.spec_board() == self,
            it.remaining() == line_seq(
                *self,
                column as int,
                row as int,
                column_direction as int,
                row_direction as int,
            ),
    {
        BoardIterator { board: self, column, row, column_direction, row_direction }
    }

    /// A cursor over row `row`, left to right.
    pub fn row_iterator(&self, row: usize) -> (it: BoardIterator)
        requires
            self.wf(),
        ensures
            it.wf(),
            it.spec_board() == self,
            it.remaining() == line_seq(*self, 0, row as int, 1, 0),
    {
        self.iterator(0, row, 1, 0)
    }

    /// A cursor over column `column`, top row downward.
    pub fn column_iterator(&self, column: usize) -> (it: BoardIterator)
        requires
            self.wf(),
        ensures
            it.wf(),
            it.spec_board() == self,
            it.remaining() == line_seq(*self, column as int, 0, 0, 1),
    {
        self.iterator(column, 0, 0, 1)
    }

    /// A cursor over the diagonal starting at (column, 0), stepping by
    /// (+1, +1) when `forward`, by (-1, +1) otherwise.
    pub fn diagonal_iterator(&self, column: usize, forward: bool) -> (it: BoardIterator)
        requires
            self.wf(),
        ensures
            it.wf(),
            it.spec_board() == self,
            it.remaining() == diag_seq(*self, column as int, 0, forward),
    {
        if forward {
            self.iterator(column, 0, 1, 1)
        } else {
            self.iterator(column, 0, -1, 1)
        }
    }

    /// Enumerate every maximal diagonal of length at least
    /// `minimum_size`; `None` exactly when there is none.
    pub fn diagonal_iterator_iterator(&self, minimum_size: usize) -> (r: Option<
        DiagonalIteratorIterator,
    >)
        requires
            self.wf(),
        ensures
            r is Some <==> minimum_size <= min_int(self.spec_columns(), self.spec_rows()),
            r matches Some(dii) ==> dii.wf() && dii.spec_board() == self && dii.spec_minimum()
                == minimum_size && !dii.done() && no_qualifying_before(
                *self,
                minimum_size as int,
                dii.cur_index(),
            ),
    {
        DiagonalIteratorIterator::new(self, minimum_size)
    }
}

/// A well-formed enumerator never stands past the sweep's total, and
/// stands at the total exactly when it is exhausted.
pub proof fn lemma_dii_wf_bounds(dii: DiagonalIteratorIterator)
    requires
        dii.wf(),
    ensures
        dii.cur_index() <= sweep_total(*dii.spec_board()),
        dii.done() <==> dii.cur_index() == sweep_total(*dii.spec_board()),
{
    if !dii.done() {
        lemma_sweep_index_range(
            *dii.spec_board(),
            dii.spec_column(),
            dii.spec_row(),
            dii.spec_forward(),
        );
    }
}

/// Extend "no qualifying origin before the sweep position" over one
/// non-qualifying origin.
pub proof fn lemma_no_qualifying_step(b: Board, minimum: int, c0: int, r0: int, f0: bool)
    requires
        b.wf(),
        is_origin(b, c0, r0, f0),
        diag_len(b, c0, r0, f0) < minimum,
        no_qualifying_before(b, minimum, sweep_index(b, c0, r0, f0)),
    ensures
        no_qualifying_before(b, minimum, sweep_index(b, c0, r0, f0) + 1),
{
    assert forall|c: int, r: int, f: bool|
        is_origin(b, c, r, f) && sweep_index(b, c, r, f) < sweep_index(b, c0, r0, f0)
            + 1 implies diag_len(b, c, r, f) < minimum by {
        if sweep_index(b, c, r, f) == sweep_index(b, c0, r0, f0) {
            lemma_sweep_injective(b, c, r, f, c0, r0, f0);
        }
    }
}

/// Once the sweep has passed every position without meeting a
/// qualifying origin, even the longest diagonal falls short of the
/// minimum.
pub proof fn lemma_no_qualifying_at_all(b: Board, minimum: int)
    requires
        b.wf(),
        no_qualifying_before(b, minimum, sweep_total(b)),
    ensures
        min_int(b.spec_columns(), b.spec_rows()) < minimum,
{
    lemma_longest_diag(b);
    lemma_sweep_index_range(b, 0, 0, true);
    assert(is_origin(b, 0, 0, true));
}

} // verus!
