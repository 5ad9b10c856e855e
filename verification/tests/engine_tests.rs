use mcts::board::Board;
use mcts::board::GameResult;
use mcts::board::Square;
use mcts::engine::SearchError;
use mcts::engine::choose_move;
use mcts::engine::expansion;
use mcts::engine::light_simulation;
use mcts::engine::best_child;
use mcts::engine::random_move;
use mcts::engine::selection;
use mcts::moves::next_moves;
use mcts::tree::Tree;

fn board_from(cells: [Square; 9], white_turn: bool) -> Board {
    Board {
        s0: cells[0],
        s1: cells[1],
        s2: cells[2],
        s3: cells[3],
        s4: cells[4],
        s5: cells[5],
        s6: cells[6],
        s7: cells[7],
        s8: cells[8],
        is_whites_turn: white_turn,
    }
}

fn count_empty(b: &Board) -> usize {
    let mut n = 0;
    for i in 0..9 {
        if b.square_at(i) == Square::Empty {
            n += 1;
        }
    }
    n
}

const E: Square = Square::Empty;
const W: Square = Square::White;
const B: Square = Square::Black;

#[test]
fn simulation_returns_a_decided_win_at_once() {
    let won = board_from([W, W, W, B, B, E, E, E, E], false);
    assert_eq!(light_simulation(&won), GameResult::WhiteWins);
    let lost = board_from([W, W, E, B, B, B, W, E, E], true);
    assert_eq!(light_simulation(&lost), GameResult::BlackWins);
}

#[test]
fn simulation_of_one_forced_draw() {
    // One empty square whose fill ends in a cats game.
    let b = board_from([W, B, W, W, B, B, B, W, E], true);
    assert_eq!(light_simulation(&b), GameResult::CatsGame);
}

#[test]
fn random_move_yields_a_legal_successor() {
    let b = board_from([W, E, B, E, W, B, E, E, E], false);
    for _ in 0..50 {
        let m = random_move(&b);
        assert_eq!(count_empty(&m), count_empty(&b) - 1);
        assert!(m.is_whites_turn);
        let mut changed = 0;
        for i in 0..9 {
            if m.square_at(i) != b.square_at(i) {
                assert_eq!(b.square_at(i), E);
                assert_eq!(m.square_at(i), B);
                changed += 1;
            }
        }
        assert_eq!(changed, 1);
    }
}

#[test]
fn winning_move_is_taken() {
    // White holds squares 0 and 1 and moves; square 2 completes the line.
    // The winning child is fully evaluated by the first expansion, holds a
    // perfect win rate, and wins every tie as the earliest child.
    let b = board_from([W, W, E, E, E, E, E, E, E], true);
    let expected = board_from([W, W, W, E, E, E, E, E, E], false);
    let chosen = choose_move(&b, 20).expect("a move was owed");
    assert_eq!(chosen, expected);
}

#[test]
fn full_board_reports_no_children() {
    let b = board_from([W, B, W, W, B, B, B, W, W], true);
    assert_eq!(choose_move(&b, 20), Err(SearchError::NoChildren));
}

#[test]
fn decided_board_reports_no_children() {
    let b = board_from([B, B, B, W, W, E, W, E, E], true);
    assert_eq!(choose_move(&b, 20), Err(SearchError::NoChildren));
}

#[test]
fn chosen_moves_are_always_legal() {
    let b = Board::new();
    for _ in 0..10 {
        let m = choose_move(&b, 1).expect("a move was owed");
        assert!(!m.is_whites_turn);
        assert_eq!(count_empty(&m), 8);
        let mut changed = 0;
        for i in 0..9 {
            if m.square_at(i) != b.square_at(i) {
                assert_eq!(b.square_at(i), E);
                assert_eq!(m.square_at(i), W);
                changed += 1;
            }
        }
        assert_eq!(changed, 1);
    }
}

#[test]
fn engine_blocks_or_wins_a_midgame_position() {
    // Black to move with white threatening squares 0-1-2; every legal reply
    // is accepted, but the board must stay consistent.
    let b = board_from([W, W, E, E, B, E, E, E, E], false);
    let m = choose_move(&b, 20).expect("a move was owed");
    assert!(m.is_whites_turn);
    assert_eq!(count_empty(&m), count_empty(&b) - 1);
}

#[test]
fn selection_returns_a_node_with_at_most_one_child() {
    let b = Board::new();
    let mut t = Tree::new(b);
    // A root without children is returned as it stands.
    assert_eq!(selection(&t, 0), 0);
    let succs = next_moves(&b);
    let c0 = t.append_child(0, succs[0]);
    t.back_propagate(c0, GameResult::WhiteWins);
    // A root with exactly one child is re-expanded, not descended into.
    assert_eq!(selection(&t, 0), 0);
    let c1 = t.append_child(0, succs[1]);
    t.back_propagate(c1, GameResult::BlackWins);
    // Two children: selection descends into the better-scored one, which has
    // no children of its own and is returned.
    assert_eq!(selection(&t, 0), c0);
}

#[test]
fn best_child_breaks_ties_towards_the_earlier_child() {
    let b = Board::new();
    let mut t = Tree::new(b);
    let succs = next_moves(&b);
    let c0 = t.append_child(0, succs[0]);
    t.back_propagate(c0, GameResult::CatsGame);
    let c1 = t.append_child(0, succs[1]);
    t.back_propagate(c1, GameResult::CatsGame);
    // Equal win rates: the earlier child wins the tie.
    assert_eq!(best_child(&t), c0);
    let c2 = t.append_child(0, succs[2]);
    t.back_propagate(c2, GameResult::WhiteWins);
    // A strictly better rate displaces the running best.
    assert_eq!(best_child(&t), c2);
}

#[test]
fn expansion_backpropagates_once_per_child() {
    // A root with three empty squares: expansion creates three children, each
    // simulated exactly once (two simulation ticks), and the root gains
    // exactly two ticks per child.
    let b = board_from([W, B, W, B, W, B, E, E, E], true);
    let mut t = Tree::new(b);
    expansion(&mut t, 0);
    assert_eq!(t.len(), 4);
    assert_eq!(t.nodes[0].nsims, 6);
    assert!(t.nodes[0].nwins <= 6);
    assert_eq!(t.nodes[0].children, vec![1, 2, 3]);
    for c in 1..4 {
        assert_eq!(t.nodes[c].nsims, 2);
        assert!(t.nodes[c].nwins <= 2);
        assert_eq!(t.nodes[c].parent, Some(0));
    }
}

#[test]
fn expansion_of_a_finished_position_changes_nothing() {
    // A decided board with empty squares left expands to nothing; every
    // counter stays as it was.
    let b = board_from([W, W, W, B, B, E, E, E, E], false);
    let mut t = Tree::new(b);
    expansion(&mut t, 0);
    assert_eq!(t.len(), 1);
    assert_eq!(t.nodes[0].nsims, 0);
    assert_eq!(t.nodes[0].nwins, 0);
    assert!(t.nodes[0].children.is_empty());
}

#[test]
fn simulation_classifies_a_full_undecided_board_as_cats() {
    let b = board_from([W, B, W, W, B, B, B, W, W], true);
    assert_eq!(light_simulation(&b), GameResult::CatsGame);
}
