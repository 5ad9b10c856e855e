use mcts::board::Board;
use mcts::board::GameResult;
use mcts::board::Square;

fn board_from(cells: [Square; 9], white_turn: bool) -> Board {
    Board {
        s0: cells[0],
        s1: cells[1],
        s2: cells[2],
        s3: cells[3],
        s4: cells[4],
        s5: cells[5],
        s6: cells[6],
        s7: cells[7],
        s8: cells[8],
        is_whites_turn: white_turn,
    }
}

const E: Square = Square::Empty;
const W: Square = Square::White;
const B: Square = Square::Black;

#[test]
fn new_board_is_empty_and_white_moves() {
    let b = Board::new();
    assert_eq!(b, board_from([E, E, E, E, E, E, E, E, E], true));
    assert!(!b.is_terminal());
    assert_eq!(b.winner(), None);
}

#[test]
fn row_victory_is_detected() {
    let b = board_from([W, W, W, B, B, E, E, E, E], false);
    assert!(b.white_wins());
    assert!(!b.black_wins());
    assert!(b.is_terminal());
    assert_eq!(b.winner(), Some(GameResult::WhiteWins));
}

#[test]
fn column_victory_is_detected() {
    let b = board_from([B, W, E, B, W, E, B, E, W], true);
    assert!(b.black_wins());
    assert!(b.column_victory(Square::Black));
    assert_eq!(b.winner(), Some(GameResult::BlackWins));
    assert!(b.is_terminal());
}

#[test]
fn diagonal_victory_is_detected() {
    let b = board_from([W, B, B, E, W, E, E, E, W], false);
    assert!(b.diagonal_victory(Square::White));
    assert!(b.white_wins());
    let c = board_from([B, E, W, E, W, E, W, E, B], true);
    assert!(c.diagonal_victory(Square::White));
}

#[test]
fn full_board_without_line_is_cats() {
    let b = board_from([W, B, W, W, B, B, B, W, W], false);
    assert!(b.is_cats());
    assert!(!b.white_wins());
    assert!(!b.black_wins());
    assert!(b.is_terminal());
    assert_eq!(b.winner(), Some(GameResult::CatsGame));
}

#[test]
fn terminal_iff_decided_or_full() {
    // A winner decides the game even with empty squares left.
    let won = board_from([W, W, W, E, E, E, E, B, B], false);
    assert!(won.is_terminal());
    assert!(won.winner().is_some());
    // Nine occupied squares end the game even without a winner.
    let full = board_from([W, B, W, W, B, B, B, W, W], true);
    assert!(full.is_terminal());
    // Neither a winner nor a full board: the game goes on.
    let open_board = board_from([W, B, E, E, E, E, E, E, E], true);
    assert!(!open_board.is_terminal());
    assert_eq!(open_board.winner(), None);
}

#[test]
fn render_draws_the_grid() {
    let b = board_from([W, B, E, E, W, E, E, E, B], true);
    assert_eq!(b.render(), "|O X   |\n|  O   |\n|    X |\n\n");
}

#[test]
fn render_empty_board() {
    let b = Board::new();
    assert_eq!(b.render(), "|      |\n|      |\n|      |\n\n");
}

#[test]
fn square_at_reads_row_major() {
    let b = board_from([W, B, E, E, W, E, E, E, B], true);
    assert_eq!(b.square_at(0), W);
    assert_eq!(b.square_at(1), B);
    assert_eq!(b.square_at(4), W);
    assert_eq!(b.square_at(8), B);
    assert_eq!(b.square_at(5), E);
}
