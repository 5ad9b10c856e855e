use mcts::pushfight::Piece;
use mcts::pushfight::can_be_pushed;
use mcts::pushfight::is_black;
use mcts::pushfight::is_pusher;
use mcts::pushfight::is_white;

#[test]
fn pushers_are_recognized() {
    assert!(is_pusher(Piece::WhitePusher));
    assert!(is_pusher(Piece::WhitePusherWithAnchor));
    assert!(is_pusher(Piece::BlackPusher));
    assert!(is_pusher(Piece::BlackPusherWithAnchor));
    assert!(!is_pusher(Piece::WhiteDier));
    assert!(!is_pusher(Piece::BlackDier));
    assert!(!is_pusher(Piece::Empty));
    assert!(!is_pusher(Piece::OffBoard));
}

#[test]
fn sides_are_recognized() {
    assert!(is_black(Piece::BlackDier));
    assert!(is_black(Piece::BlackPusher));
    assert!(is_black(Piece::BlackPusherWithAnchor));
    assert!(!is_black(Piece::WhitePusher));
    assert!(!is_black(Piece::OffBoard));
    assert!(is_white(Piece::WhiteDier));
    assert!(is_white(Piece::WhitePusher));
    assert!(is_white(Piece::WhitePusherWithAnchor));
    assert!(!is_white(Piece::BlackDier));
    assert!(!is_white(Piece::Empty));
}

#[test]
fn anchored_pieces_cannot_be_pushed() {
    assert!(can_be_pushed(Piece::WhitePusher));
    assert!(can_be_pushed(Piece::WhiteDier));
    assert!(can_be_pushed(Piece::BlackPusher));
    assert!(can_be_pushed(Piece::BlackDier));
    assert!(!can_be_pushed(Piece::WhitePusherWithAnchor));
    assert!(!can_be_pushed(Piece::BlackPusherWithAnchor));
    assert!(!can_be_pushed(Piece::Empty));
    assert!(!can_be_pushed(Piece::OffBoard));
}
