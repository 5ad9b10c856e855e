//! The move enumerator: the ordered sequence of legal successor positions.

use vstd::prelude::*;

use crate::board::Board;
use crate::board::Square;
use crate::board::empties_upto;
use crate::board::spec_count_empty;
use crate::board::spec_is_terminal;
use crate::board::spec_mover;

verus! {

/// The board obtained by placing the mover's piece on square `i` and passing
/// the turn to the other side.
pub open spec fn spec_place(b: Board, i: int) -> Board {
    Board {
        s0: if i == 0 {
            spec_mover(b)
        } else {
            b.s0
        },
        s1: if i == 1 {
            spec_mover(b)
        } else {
            b.s1
        },
        s2: if i == 2 {
            spec_mover(b)
        } else {
            b.s2
        },
        s3: if i == 3 {
            spec_mover(b)
        } else {
            b.s3
        },
        s4: if i == 4 {
            spec_mover(b)
        } else {
            b.s4
        },
        s5: if i == 5 {
            spec_mover(b)
        } else {
            b.s5
        },
        s6: if i == 6 {
            spec_mover(b)
        } else {
            b.s6
        },
        s7: if i == 7 {
            spec_mover(b)
        } else {
            b.s7
        },
        s8: if i == 8 {
            spec_mover(b)
        } else {
            b.s8
        },
        is_whites_turn: !b.is_whites_turn,
    }
}

/// The placements on the empty squares among the first `n`, in ascending
/// order of square index.
pub open spec fn placements_upto(b: Board, n: int) -> Seq<Board>
    decreases n,
{
    if n <= 0 {
        Seq::empty()
    } else {
        placements_upto(b, n - 1) + (if b@[n - 1] == Square::Empty {
            seq![spec_place(b, n - 1)]
        } else {
            Seq::<Board>::empty()
        })
    }
}

/// What the enumerator yields: nothing for a finished position, otherwise one
/// successor per empty square, in ascending square order, each with the turn
/// passed to the other side.
pub open spec fn spec_next_moves(b: Board) -> Seq<Board> {
    if spec_is_terminal(b) {
        Seq::empty()
    } else {
        placements_upto(b, 9)
    }
}

/// Placing the mover's piece on square `i`.
fn place(b: &Board, i: usize) -> (r: Board)
    requires
        i < 9,
    ensures
        r == spec_place(*b, i as int),
{
    let mover = if b.is_whites_turn {
        Square::White
    } else {
        Square::Black
    };
    let mut r = *b;
    match i {
        0 => r.s0 = mover,
        1 => r.s1 = mover,
        2 => r.s2 = mover,
        3 => r.s3 = mover,
        4 => r.s4 = mover,
        5 => r.s5 = mover,
        6 => r.s6 = mover,
        7 => r.s7 = mover,
        _ => r.s8 = mover,
    }
    r.is_whites_turn = !b.is_whites_turn;
    r
}

/// Enumerates the legal successors of `b`, in ascending order of the square
/// the mover's piece is placed on. A finished position has no successors.
/// The result is a pure function of the board, so re-enumerating an equal
/// board reproduces the identical sequence.
pub fn next_moves(b: &Board) -> (r: Vec<Board>)
    ensures
        r@ == spec_next_moves(*b),
{
    let mut r: Vec<Board> = Vec::new();
    if b.is_terminal() {
        return r;
    }
    for i in 0..9
        invariant
            r@ == placements_upto(*b, i as int),
            !spec_is_terminal(*b),
    {
        if b.square_at(i) == Square::Empty {
            r.push(place(b, i));
        }
        assert(r@ =~= placements_upto(*b, i + 1));
    }
    r
}

/// Two enumerations of equal boards yield identical sequences: the enumerator
/// is deterministic and restartable.
pub proof fn lemma_next_moves_deterministic(a: Board, b: Board)
    requires
        a == b,
    ensures
        spec_next_moves(a) == spec_next_moves(b),
{
}

/// Among the first `n` squares there are as many placements as empty squares,
/// and each placement fills an empty square at an index below `n` and passes
/// the turn.
proof fn lemma_placements_upto(b: Board, n: int)
    requires
        0 <= n <= 9,
    ensures
        placements_upto(b, n).len() == empties_upto(b, n),
        forall|k: int|
            0 <= k < placements_upto(b, n).len() ==> (exists|i: int|
                0 <= i < n && b@[i] == Square::Empty && #[trigger] placements_upto(b, n)[k]
                    == spec_place(b, i)),
    decreases n,
{
    if n > 0 {
        lemma_placements_upto(b, n - 1);
        if b@[n - 1] == Square::Empty {
            let s = placements_upto(b, n);
            assert forall|k: int| 0 <= k < s.len() implies (exists|i: int|
                0 <= i < n && b@[i] == Square::Empty && #[trigger] s[k] == spec_place(b, i)) by {
                if k < s.len() - 1 {
                    assert(s[k] == placements_upto(b, n - 1)[k]);
                } else {
                    assert(s[k] == spec_place(b, n - 1));
                }
            }
        }
    }
}

/// Placing a piece on an empty square leaves one fewer empty square.
proof fn lemma_place_empties(b: Board, i: int, n: int)
    requires
        0 <= i < 9,
        0 <= n <= 9,
        b@[i] == Square::Empty,
    ensures
        empties_upto(spec_place(b, i), n) == if i < n {
            empties_upto(b, n) - 1
        } else {
            empties_upto(b, n) as int
        },
    decreases n,
{
    if n > 0 {
        lemma_place_empties(b, i, n - 1);
    }
}

/// For a position that is not finished, the enumerator yields exactly one
/// board per empty square; each yielded board has exactly one fewer empty
/// square than the input and the turn flag inverted.
pub proof fn lemma_next_moves_count(b: Board)
    requires
        !spec_is_terminal(b),
    ensures
        spec_next_moves(b).len() == spec_count_empty(b),
        forall|k: int|
            0 <= k < spec_next_moves(b).len() ==> #[trigger] spec_count_empty(
                spec_next_moves(b)[k],
            ) + 1 == spec_count_empty(b),
        forall|k: int|
            0 <= k < spec_next_moves(b).len() ==> (#[trigger] spec_next_moves(
                b,
            )[k]).is_whites_turn == !b.is_whites_turn,
    decreases 9int,
{
    lemma_placements_upto(b, 9);
    assert forall|k: int| 0 <= k < spec_next_moves(b).len() implies #[trigger] spec_count_empty(
        spec_next_moves(b)[k],
    ) + 1 == spec_count_empty(b) by {
        let i = choose|i: int|
            0 <= i < 9 && b@[i] == Square::Empty && placements_upto(b, 9)[k] == spec_place(b, i);
        lemma_place_empties(b, i, 9);
    }
}

/// The enumerator never yields more than nine boards.
pub proof fn lemma_next_moves_len(b: Board)
    ensures
        spec_next_moves(b).len() <= 9,
{
    if !spec_is_terminal(b) {
        lemma_placements_upto(b, 9);
        lemma_empties_upto_le(b, 9);
    }
}

/// At most `n` of the first `n` squares are empty.
proof fn lemma_empties_upto_le(b: Board, n: int)
    requires
        0 <= n <= 9,
    ensures
        empties_upto(b, n) <= n,
    decreases n,
{
    if n > 0 {
        lemma_empties_upto_le(b, n - 1);
    }
}

/// A position that is not finished has at least one successor.
pub proof fn lemma_next_moves_nonempty(b: Board)
    requires
        !spec_is_terminal(b),
    ensures
        spec_next_moves(b).len() >= 1,
        spec_count_empty(b) >= 1,
{
    lemma_next_moves_count(b);
    if spec_count_empty(b) == 0 {
        lemma_no_empties_means_cats(b, 9);
    }
}

/// A zero count of empty squares among the first `n` means none of them is empty.
proof fn lemma_no_empties_means_cats(b: Board, n: int)
    requires
        0 <= n <= 9,
        empties_upto(b, n) == 0,
    ensures
        forall|i: int| 0 <= i < n ==> b@[i] != Square::Empty,
    decreases n,
{
    if n > 0 {
        lemma_no_empties_means_cats(b, n - 1);
    }
}

} // verus!
