use mcts::board::Board;
use mcts::board::GameResult;
use mcts::moves::next_moves;
use mcts::tree::Tree;

#[test]
fn fresh_tree_holds_one_root() {
    let b = Board::new();
    let t = Tree::new(b);
    assert_eq!(t.len(), 1);
    assert_eq!(t.nodes[0].board, b);
    assert_eq!(t.nodes[0].nsims, 0);
    assert_eq!(t.nodes[0].nwins, 0);
    assert_eq!(t.nodes[0].parent, None);
    assert!(t.nodes[0].children.is_empty());
}

#[test]
fn append_child_links_both_ways() {
    let b = Board::new();
    let mut t = Tree::new(b);
    let succs = next_moves(&b);
    let c0 = t.append_child(0, succs[0]);
    let c1 = t.append_child(0, succs[1]);
    assert_eq!((c0, c1), (1, 2));
    assert_eq!(t.nodes[0].children, vec![1, 2]);
    assert_eq!(t.nodes[1].parent, Some(0));
    assert_eq!(t.nodes[2].parent, Some(0));
    assert_eq!(t.nodes[1].board, succs[0]);
    assert_eq!(t.nodes[2].board, succs[1]);
    assert_eq!(t.nodes[1].nsims, 0);
}

#[test]
fn back_propagate_scores_a_win_for_the_mover() {
    // Root: white to move. Child: white just moved, black to move.
    let b = Board::new();
    let mut t = Tree::new(b);
    let succs = next_moves(&b);
    let c = t.append_child(0, succs[0]);
    t.back_propagate(c, GameResult::WhiteWins);
    // The child favours the side not to move there (white): +2.
    assert_eq!(t.nodes[c].nsims, 2);
    assert_eq!(t.nodes[c].nwins, 2);
    // At the root white is to move, so a white win earns nothing.
    assert_eq!(t.nodes[0].nsims, 2);
    assert_eq!(t.nodes[0].nwins, 0);
}

#[test]
fn back_propagate_scores_a_loss_with_silence() {
    let b = Board::new();
    let mut t = Tree::new(b);
    let succs = next_moves(&b);
    let c = t.append_child(0, succs[0]);
    t.back_propagate(c, GameResult::BlackWins);
    assert_eq!(t.nodes[c].nsims, 2);
    assert_eq!(t.nodes[c].nwins, 0);
    assert_eq!(t.nodes[0].nsims, 2);
    assert_eq!(t.nodes[0].nwins, 2);
}

#[test]
fn back_propagate_scores_a_draw_with_one() {
    let b = Board::new();
    let mut t = Tree::new(b);
    let succs = next_moves(&b);
    let c = t.append_child(0, succs[0]);
    t.back_propagate(c, GameResult::CatsGame);
    assert_eq!(t.nodes[c].nsims, 2);
    assert_eq!(t.nodes[c].nwins, 1);
    assert_eq!(t.nodes[0].nsims, 2);
    assert_eq!(t.nodes[0].nwins, 1);
}

#[test]
fn back_propagate_touches_only_the_ancestor_chain() {
    let b = Board::new();
    let mut t = Tree::new(b);
    let succs = next_moves(&b);
    let c0 = t.append_child(0, succs[0]);
    let c1 = t.append_child(0, succs[1]);
    let grand = {
        let gsuccs = next_moves(&t.nodes[c1].board);
        let gb = gsuccs[0];
        t.append_child(c1, gb)
    };
    t.back_propagate(grand, GameResult::WhiteWins);
    // The sibling c0 is off the chain and stays untouched.
    assert_eq!(t.nodes[c0].nsims, 0);
    assert_eq!(t.nodes[c0].nwins, 0);
    // grand, c1 and the root each gained exactly 2 simulations.
    assert_eq!(t.nodes[grand].nsims, 2);
    assert_eq!(t.nodes[c1].nsims, 2);
    assert_eq!(t.nodes[0].nsims, 2);
}

#[test]
fn subtree_total_sums_self_and_descendants() {
    let b = Board::new();
    let mut t = Tree::new(b);
    let succs = next_moves(&b);
    let c0 = t.append_child(0, succs[0]);
    let c1 = t.append_child(0, succs[1]);
    t.back_propagate(c0, GameResult::WhiteWins);
    t.back_propagate(c1, GameResult::CatsGame);
    t.back_propagate(c1, GameResult::BlackWins);
    assert_eq!(t.subtree_total(c0), 2);
    assert_eq!(t.subtree_total(c1), 4);
    assert_eq!(t.subtree_total(0), 2 + 4 + 6);
}

#[test]
fn is_on_path_follows_parents() {
    let b = Board::new();
    let mut t = Tree::new(b);
    let succs = next_moves(&b);
    let c0 = t.append_child(0, succs[0]);
    let c1 = t.append_child(0, succs[1]);
    let gsuccs = next_moves(&t.nodes[c1].board);
    let grand = t.append_child(c1, gsuccs[0]);
    assert!(t.is_on_path(grand, c1));
    assert!(t.is_on_path(grand, 0));
    assert!(t.is_on_path(grand, grand));
    assert!(!t.is_on_path(grand, c0));
    assert!(!t.is_on_path(c0, c1));
    assert!(t.is_on_path(c0, 0));
    assert!(!t.is_on_path(0, c0));
}
