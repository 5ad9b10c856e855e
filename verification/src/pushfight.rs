//! Piece classification rules for a push-fight board game: which pieces push,
//! which side owns a piece, and which pieces can be pushed around.

use vstd::prelude::*;

verus! {

/// A square's occupant: a pusher or a round piece (a "dier") of either side,
/// a pusher holding the anchor, an empty square, or a square off the board.
#[derive(Clone, Copy, PartialEq, Eq, Structural, Debug)]
pub enum Piece {
    WhitePusher,
    WhitePusherWithAnchor,
    WhiteDier,
    BlackPusher,
    BlackPusherWithAnchor,
    BlackDier,
    Empty,
    OffBoard,
}

/// Whether the piece is a pusher (with or without the anchor), of either side.
pub fn is_pusher(piece: Piece) -> (r: bool)
    ensures
        r == (piece is WhitePusher || piece is WhitePusherWithAnchor || piece is BlackPusher
            || piece is BlackPusherWithAnchor),
{
    match piece {
        Piece::WhitePusher | Piece::WhitePusherWithAnchor | Piece::BlackPusher
            | Piece::BlackPusherWithAnchor => true,
        _ => false,
    }
}

/// Whether the piece belongs to black.
pub fn is_black(piece: Piece) -> (r: bool)
    ensures
        r == (piece is BlackDier || piece is BlackPusher || piece is BlackPusherWithAnchor),
{
    match piece {
        Piece::BlackDier | Piece::BlackPusher | Piece::BlackPusherWithAnchor => true,
        _ => false,
    }
}

/// Whether the piece belongs to white.
pub fn is_white(piece: Piece) -> (r: bool)
    ensures
        r == (piece is WhiteDier || piece is WhitePusher || piece is WhitePusherWithAnchor),
{
    match piece {
        Piece::WhiteDier | Piece::WhitePusher | Piece::WhitePusherWithAnchor => true,
        _ => false,
    }
}

/// Whether the piece can be pushed: any piece of either side that does not
/// hold the anchor.
pub fn can_be_pushed(piece: Piece) -> (r: bool)
    ensures
        r == (piece is WhitePusher || piece is WhiteDier || piece is BlackPusher
            || piece is BlackDier),
{
    match piece {
        Piece::WhitePusher | Piece::WhiteDier | Piece::BlackPusher | Piece::BlackDier => true,
        _ => false,
    }
}

} // verus!
