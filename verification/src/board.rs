//! The game state: a 3x3 tic-tac-toe board and its terminal / winner rules.

use vstd::prelude::*;
use vstd::string::StringExecFns;

verus! {

/// One square of the board: empty, or occupied by one of the two players.
/// White plays `O` and moves first; black plays `X`.
#[derive(Clone, Copy, PartialEq, Eq, Structural, Debug)]
pub enum Square {
    Empty,
    White,
    Black,
}

/// A full board position: nine squares in row-major order, plus the flag
/// saying whose turn it is. Positions are plain values, compared structurally;
/// the engine trusts the caller to hand it a reachable position.
#[derive(Clone, Copy, PartialEq, Eq, Structural, Debug)]
pub struct Board {
    pub s0: Square,
    pub s1: Square,
    pub s2: Square,
    pub s3: Square,
    pub s4: Square,
    pub s5: Square,
    pub s6: Square,
    pub s7: Square,
    pub s8: Square,
    pub is_whites_turn: bool,
}

impl View for Board {
    type V = Seq<Square>;

    /// A board is viewed as the sequence of its nine squares.
    open spec fn view(&self) -> Seq<Square> {
        seq![self.s0, self.s1, self.s2, self.s3, self.s4, self.s5, self.s6, self.s7, self.s8]
    }
}

/// The outcome of a finished game: a win for one side, or a cats game (draw).
#[derive(Clone, Copy, PartialEq, Eq, Structural, Debug)]
pub enum GameResult {
    WhiteWins,
    BlackWins,
    CatsGame,
}

/// Three given squares all hold `s`.
pub open spec fn spec_three(b: Board, i: int, j: int, k: int, s: Square) -> bool {
    b@[i] == s && b@[j] == s && b@[k] == s
}

pub open spec fn spec_row_victory(b: Board, s: Square) -> bool {
    spec_three(b, 0, 1, 2, s) || spec_three(b, 3, 4, 5, s) || spec_three(b, 6, 7, 8, s)
}

pub open spec fn spec_column_victory(b: Board, s: Square) -> bool {
    spec_three(b, 0, 3, 6, s) || spec_three(b, 1, 4, 7, s) || spec_three(b, 2, 5, 8, s)
}

pub open spec fn spec_diagonal_victory(b: Board, s: Square) -> bool {
    spec_three(b, 0, 4, 8, s) || spec_three(b, 2, 4, 6, s)
}

pub open spec fn spec_victory(b: Board, s: Square) -> bool {
    spec_row_victory(b, s) || spec_column_victory(b, s) || spec_diagonal_victory(b, s)
}

pub open spec fn spec_white_wins(b: Board) -> bool {
    spec_victory(b, Square::White)
}

pub open spec fn spec_black_wins(b: Board) -> bool {
    spec_victory(b, Square::Black)
}

/// Every square is occupied.
pub open spec fn spec_is_cats(b: Board) -> bool {
    forall|i: int| 0 <= i < 9 ==> b@[i] != Square::Empty
}

pub open spec fn spec_is_terminal(b: Board) -> bool {
    spec_is_cats(b) || spec_white_wins(b) || spec_black_wins(b)
}

/// The piece the side to move would place.
pub open spec fn spec_mover(b: Board) -> Square {
    if b.is_whites_turn {
        Square::White
    } else {
        Square::Black
    }
}

/// How many of the first `n` squares are empty.
pub open spec fn empties_upto(b: Board, n: int) -> nat
    decreases n,
{
    if n <= 0 {
        0
    } else {
        empties_upto(b, n - 1) + (if b@[n - 1] == Square::Empty {
            1nat
        } else {
            0nat
        })
    }
}

/// How many squares of the board are empty.
pub open spec fn spec_count_empty(b: Board) -> nat {
    empties_upto(b, 9)
}

impl Board {
    /// The empty starting position, white to move.
    pub fn new() -> (b: Board)
        ensures
            forall|i: int| 0 <= i < 9 ==> b@[i] == Square::Empty,
            b.is_whites_turn,
    {
        Board {
            s0: Square::Empty,
            s1: Square::Empty,
            s2: Square::Empty,
            s3: Square::Empty,
            s4: Square::Empty,
            s5: Square::Empty,
            s6: Square::Empty,
            s7: Square::Empty,
            s8: Square::Empty,
            is_whites_turn: true,
        }
    }

    /// The square at index `i`, row-major.
    pub fn square_at(&self, i: usize) -> (s: Square)
        requires
            i < 9,
        ensures
            s == self@[i as int],
    {
        match i {
            0 => self.s0,
            1 => self.s1,
            2 => self.s2,
            3 => self.s3,
            4 => self.s4,
            5 => self.s5,
            6 => self.s6,
            7 => self.s7,
            _ => self.s8,
        }
    }

    pub fn white_wins(&self) -> (r: bool)
        ensures
            r == spec_white_wins(*self),
    {
        self.victory(Square::White)
    }

    pub fn black_wins(&self) -> (r: bool)
        ensures
            r == spec_black_wins(*self),
    {
        self.victory(Square::Black)
    }

    fn victory(&self, s: Square) -> (r: bool)
        ensures
            r == spec_victory(*self, s),
    {
        self.row_victory(s) || self.column_victory(s) || self.diagonal_victory(s)
    }

    pub fn row_victory(&self, s: Square) -> (r: bool)
        ensures
            r == spec_row_victory(*self, s),
    {
        (self.s0 == s && self.s1 == s && self.s2 == s) || (self.s3 == s && self.s4 == s
            && self.s5 == s) || (self.s6 == s && self.s7 == s && self.s8 == s)
    }

    pub fn column_victory(&self, s: Square) -> (r: bool)
        ensures
            r == spec_column_victory(*self, s),
    {
        (self.s0 == s && self.s3 == s && self.s6 == s) || (self.s1 == s && self.s4 == s
            && self.s7 == s) || (self.s2 == s && self.s5 == s && self.s8 == s)
    }

    pub fn diagonal_victory(&self, s: Square) -> (r: bool)
        ensures
            r == spec_diagonal_victory(*self, s),
    {
        (self.s0 == s && self.s4 == s && self.s8 == s) || (self.s2 == s && self.s4 == s
            && self.s6 == s)
    }

    /// No empty square is left.
    pub fn is_cats(&self) -> (r: bool)
        ensures
            r == spec_is_cats(*self),
    {
        self.s0 != Square::Empty && self.s1 != Square::Empty && self.s2 != Square::Empty && self.s3
            != Square::Empty && self.s4 != Square::Empty && self.s5 != Square::Empty && self.s6
            != Square::Empty && self.s7 != Square::Empty && self.s8 != Square::Empty
    }

    /// The game is over: the board is full, or one side has a line of three.
    pub fn is_terminal(&self) -> (r: bool)
        ensures
            r == spec_is_terminal(*self),
    {
        self.is_cats() || self.white_wins() || self.black_wins()
    }
}

/// Who has won, a cats game, or `None` while the game is still running.
/// A white line is looked for first, as a black line second; an unreachable
/// position holding lines for both sides reports white.
pub open spec fn spec_winner(b: Board) -> Option<GameResult> {
    if spec_white_wins(b) {
        Some(GameResult::WhiteWins)
    } else if spec_black_wins(b) {
        Some(GameResult::BlackWins)
    } else if spec_is_cats(b) {
        Some(GameResult::CatsGame)
    } else {
        None
    }
}

impl Board {
    /// Classifies the position: a decided win, a cats game, or still running.
    pub fn winner(&self) -> (r: Option<GameResult>)
        ensures
            r == spec_winner(*self),
    {
        if self.white_wins() {
            Some(GameResult::WhiteWins)
        } else if self.black_wins() {
            Some(GameResult::BlackWins)
        } else if self.is_cats() {
            Some(GameResult::CatsGame)
        } else {
            None
        }
    }
}

/// The character a square is drawn as: blank, `O` for white, `X` for black.
pub open spec fn spec_square_char(s: Square) -> char {
    match s {
        Square::Empty => ' ',
        Square::White => 'O',
        Square::Black => 'X',
    }
}

/// One drawn row of the grid: `|` then the three squares, each followed by a
/// blank, then `|` and a line break.
pub open spec fn spec_row(b: Board, r: int) -> Seq<char> {
    seq![
        '|',
        spec_square_char(b@[3 * r]),
        ' ',
        spec_square_char(b@[3 * r + 1]),
        ' ',
        spec_square_char(b@[3 * r + 2]),
        ' ',
        '|',
        '\n',
    ]
}

/// The whole drawn grid: three rows and a closing blank line.
pub open spec fn spec_render(b: Board) -> Seq<char> {
    spec_row(b, 0) + spec_row(b, 1) + spec_row(b, 2) + seq!['\n']
}

/// The one-character text of a square.
fn square_str(s: Square) -> (r: &'static str)
    ensures
        r@ =~= seq![spec_square_char(s)],
{
    proof {
        reveal_strlit(" ");
        reveal_strlit("O");
        reveal_strlit("X");
    }
    match s {
        Square::Empty => " ",
        Square::White => "O",
        Square::Black => "X",
    }
}

impl Board {
    /// A human-readable 3x3 grid: one `|piece piece piece |` line per row and
    /// a closing blank line.
    pub fn render(&self) -> (s: String)
        ensures
            s@ == spec_render(*self),
    {
        proof {
            reveal_strlit("|");
            reveal_strlit(" ");
            reveal_strlit("\n");
        }
        let mut s = String::new();
        s.append("|");
        s.append(square_str(self.s0));
        s.append(" ");
        s.append(square_str(self.s1));
        s.append(" ");
        s.append(square_str(self.s2));
        s.append(" ");
        s.append("|");
        s.append("\n");
        s.append("|");
        s.append(square_str(self.s3));
        s.append(" ");
        s.append(square_str(self.s4));
        s.append(" ");
        s.append(square_str(self.s5));
        s.append(" ");
        s.append("|");
        s.append("\n");
        s.append("|");
        s.append(square_str(self.s6));
        s.append(" ");
        s.append(square_str(self.s7));
        s.append(" ");
        s.append(square_str(self.s8));
        s.append(" ");
        s.append("|");
        s.append("\n");
        s.append("\n");
        proof {
            assert(s@ =~= spec_render(*self));
        }
        s
    }
}

/// The game is over exactly when one side has won or no square is empty.
pub proof fn lemma_terminal_iff_decided_or_full(b: Board)
    ensures
        spec_is_terminal(b) <==> (spec_white_wins(b) || spec_black_wins(b) || spec_count_empty(b)
            == 0),
{
    assert(spec_is_cats(b) <==> spec_count_empty(b) == 0) by {
        lemma_cats_iff_no_empties(b);
    }
}

/// A board is full exactly when its empty-square count is zero.
proof fn lemma_cats_iff_no_empties(b: Board)
    ensures
        spec_is_cats(b) <==> spec_count_empty(b) == 0,
{
    lemma_empties_upto_zero(b, 9);
}

/// The count over the first `n` squares is zero exactly when none of them is empty.
proof fn lemma_empties_upto_zero(b: Board, n: int)
    requires
        0 <= n <= 9,
    ensures
        empties_upto(b, n) == 0 <==> (forall|i: int| 0 <= i < n ==> b@[i] != Square::Empty),
    decreases n,
{
    if n > 0 {
        lemma_empties_upto_zero(b, n - 1);
    }
}

} // verus!
