use mcts::board::Board;
use mcts::board::Square;
use mcts::moves::next_moves;

fn board_from(cells: [Square; 9], white_turn: bool) -> Board {
    Board {
        s0: cells[0],
        s1: cells[1],
        s2: cells[2],
        s3: cells[3],
        s4: cells[4],
        s5: cells[5],
        s6: cells[6],
        s7: cells[7],
        s8: cells[8],
        is_whites_turn: white_turn,
    }
}

fn count_empty(b: &Board) -> usize {
    let mut n = 0;
    for i in 0..9 {
        if b.square_at(i) == Square::Empty {
            n += 1;
        }
    }
    n
}

const E: Square = Square::Empty;
const W: Square = Square::White;
const B: Square = Square::Black;

#[test]
fn empty_board_has_nine_successors() {
    let b = Board::new();
    let succs = next_moves(&b);
    assert_eq!(succs.len(), 9);
    for (i, s) in succs.iter().enumerate() {
        assert_eq!(s.square_at(i), W);
        assert!(!s.is_whites_turn);
        assert_eq!(count_empty(s), 8);
    }
}

#[test]
fn successors_fill_empty_squares_in_ascending_order() {
    let b = board_from([W, E, B, E, W, B, E, E, E], false);
    let succs = next_moves(&b);
    assert_eq!(succs.len(), count_empty(&b));
    let expected_squares = [1usize, 3, 6, 7, 8];
    for (k, s) in succs.iter().enumerate() {
        assert_eq!(s.square_at(expected_squares[k]), B);
        assert!(s.is_whites_turn);
        assert_eq!(count_empty(s), count_empty(&b) - 1);
        // no occupied square changed
        for i in 0..9 {
            if i != expected_squares[k] {
                assert_eq!(s.square_at(i), b.square_at(i));
            }
        }
    }
}

#[test]
fn enumeration_is_deterministic() {
    let b = board_from([W, E, B, E, W, B, E, E, E], true);
    let first = next_moves(&b);
    let second = next_moves(&b);
    assert_eq!(first, second);
    let copy = b;
    assert_eq!(next_moves(&copy), first);
}

#[test]
fn decided_board_yields_no_successors() {
    // A board with a winning line is finished even with empty squares left.
    let b = board_from([W, W, W, B, B, E, E, E, E], false);
    assert_eq!(next_moves(&b).len(), 0);
}

#[test]
fn full_board_yields_no_successors() {
    let b = board_from([W, B, W, W, B, B, B, W, W], true);
    assert_eq!(next_moves(&b).len(), 0);
}

#[test]
fn one_empty_square_yields_one_successor() {
    let b = board_from([W, B, W, W, B, B, B, W, E], true);
    // no winning line, one empty square
    let succs = next_moves(&b);
    assert_eq!(succs.len(), 1);
    assert_eq!(succs[0].square_at(8), W);
    assert!(!succs[0].is_whites_turn);
}
