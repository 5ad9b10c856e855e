//! The search engine: selection by confidence bound, one-ply full expansion
//! with a random rollout per new child, backpropagation, and the externally
//! visible operation of choosing a move under a time budget.

use vstd::prelude::*;

use rand::Rng;

use crate::board::Board;
use crate::board::GameResult;
use crate::board::spec_black_wins;
use crate::board::spec_count_empty;
use crate::board::spec_is_terminal;
use crate::board::spec_white_wins;
use crate::board::spec_winner;
use crate::moves::lemma_next_moves_count;
use crate::moves::lemma_next_moves_len;
use crate::moves::lemma_next_moves_nonempty;
use crate::moves::next_moves;
use crate::moves::spec_next_moves;
use crate::score::confidence_bound;
use crate::score::spec_score;
use crate::tree::MAX_NODES;
use crate::tree::Node;
use crate::tree::Tree;
use crate::tree::child_sims_positive;
use crate::tree::counters_bounded;
use crate::tree::legal_child;
use crate::tree::lemma_counters_at;
use crate::tree::lemma_on_path_le;
use crate::tree::lemma_on_path_parents_agree;
use crate::tree::lemma_subtree_at_least_own;
use crate::tree::node_same;
use crate::tree::on_path;
use crate::tree::parent_of;
use crate::tree::spec_credit;
use crate::tree::subtree_sims;
use crate::tree::wf;
use crate::tree::wf_child_link;
use crate::tree::wf_link;

verus! {

/// The engine aborts a call for one of these reasons; neither is recoverable.
/// The first marks tree corruption (a root left without children), the second
/// a wall clock that could not be read or ran backwards.
#[derive(Clone, Copy, PartialEq, Eq, Structural, Debug)]
pub enum SearchError {
    NoChildren,
    ClockUnavailable,
}

/// The outer search loop gives up after this many iterations even inside the
/// time budget, so that the counters stay far from their bounds; the cap is
/// far beyond anything a realistic budget reaches.
pub const ITER_CAP: u64 = 0x4_0000_0000_0000;

/// Relies on rand's `thread_rng` and `Rng::gen_range`: a uniformly
/// distributed index below `bound`. `gen_range` panics only on an empty
/// range, which `bound >= 1` rules out; nothing more than the range of the
/// result is promised of a random draw.
#[verifier::external_body]
fn random_below(bound: usize) -> (r: usize)
    requires
        1 <= bound,
    ensures
        r < bound,
{
    rand::thread_rng().gen_range(0..bound)
}

/// Relies on std::time::SystemTime: `now`, `duration_since` and `as_millis`,
/// read as whole milliseconds since the epoch, or `None` when the clock
/// cannot be read. Nothing is promised of the value: the clock may jump
/// forwards or backwards between calls.
#[verifier::external_body]
fn clock_millis() -> (r: Option<u64>) {
    match std::time::SystemTime::now().duration_since(std::time::SystemTime::UNIX_EPOCH) {
        Ok(d) => Some(d.as_millis() as u64),
        Err(_) => None,
    }
}

/// A successor of `b` drawn uniformly at random.
pub fn random_move(b: &Board) -> (r: Board)
    requires
        !spec_is_terminal(*b),
    ensures
        spec_next_moves(*b).contains(r),
{
    let succs = next_moves(b);
    proof {
        lemma_next_moves_nonempty(*b);
    }
    let i = random_below(succs.len());
    let r = succs[i];
    proof {
        assert(spec_next_moves(*b)[i as int] == r);
    }
    r
}

/// A rollout trace: it starts at `b`, every later board is an enumerator
/// successor of the one before it, no board before the last is terminal, and
/// the last is.
pub open spec fn is_rollout_chain(b: Board, chain: Seq<Board>) -> bool {
    &&& chain.len() >= 1
    &&& chain[0] == b
    &&& forall|i: int|
        0 <= i < chain.len() - 1 ==> !spec_is_terminal(#[trigger] chain[i]) && spec_next_moves(
            chain[i],
        ).contains(chain[i + 1])
    &&& spec_is_terminal(chain[chain.len() - 1])
}

/// A random playout from `b`: a position already decided is classified at
/// once; otherwise uniformly random moves are played until the game ends.
/// The result always classifies the final board of some rollout trace from
/// `b`; which trace is the random source's choice.
pub fn light_simulation(b: &Board) -> (r: GameResult)
    ensures
        spec_white_wins(*b) ==> r == GameResult::WhiteWins,
        !spec_white_wins(*b) && spec_black_wins(*b) ==> r == GameResult::BlackWins,
        spec_is_terminal(*b) && !spec_white_wins(*b) && !spec_black_wins(*b) ==> r
            == GameResult::CatsGame,
        exists|chain: Seq<Board>|
            #[trigger] is_rollout_chain(*b, chain) && spec_winner(chain[chain.len() - 1]) == Some(
                r,
            ),
{
    if b.white_wins() {
        proof {
            let chain = seq![*b];
            assert(is_rollout_chain(*b, chain) && spec_winner(chain[chain.len() - 1]) == Some(
                GameResult::WhiteWins,
            ));
        }
        return GameResult::WhiteWins;
    }
    if b.black_wins() {
        proof {
            let chain = seq![*b];
            assert(is_rollout_chain(*b, chain) && spec_winner(chain[chain.len() - 1]) == Some(
                GameResult::BlackWins,
            ));
        }
        return GameResult::BlackWins;
    }
    let mut cur: Board = *b;
    let ghost mut chain: Seq<Board> = seq![*b];
    while !cur.is_terminal()
        invariant
            spec_white_wins(*b) ==> cur == *b,
            !spec_white_wins(*b) && spec_black_wins(*b) ==> cur == *b,
            spec_is_terminal(*b) ==> cur == *b,
            chain.len() >= 1,
            chain[0] == *b,
            chain[chain.len() - 1] == cur,
            forall|i: int|
                0 <= i < chain.len() - 1 ==> !spec_is_terminal(#[trigger] chain[i])
                    && spec_next_moves(chain[i]).contains(chain[i + 1]),
        decreases spec_count_empty(cur),
    {
        let ghost prev = cur;
        proof {
            lemma_next_moves_count(prev);
        }
        cur = random_move(&cur);
        proof {
            let s = spec_next_moves(prev);
            let k = choose|k: int| 0 <= k < s.len() && s[k] == cur;
            assert(spec_count_empty(s[k]) + 1 == spec_count_empty(prev));
            assert(!spec_white_wins(*b) || spec_white_wins(prev));
            assert(!spec_is_terminal(*b) || spec_is_terminal(prev));
            chain = chain.push(cur);
            assert forall|i: int|
                0 <= i < chain.len() - 1 implies !spec_is_terminal(#[trigger] chain[i])
                && spec_next_moves(chain[i]).contains(chain[i + 1]) by {
                if i == chain.len() - 2 {
                    assert(chain[i] == prev);
                    assert(chain[i + 1] == cur);
                }
            }
        }
    }
    let r = if cur.white_wins() {
        GameResult::WhiteWins
    } else if cur.black_wins() {
        GameResult::BlackWins
    } else {
        GameResult::CatsGame
    };
    proof {
        assert(is_rollout_chain(*b, chain) && spec_winner(chain[chain.len() - 1]) == Some(r));
    }
    r
}

/// The confidence-bound score of the child node `c`, computed against the
/// total simulation count over `c`'s full subtree.
pub open spec fn spec_child_score(t: Seq<Node>, c: int) -> int {
    spec_score(t[c].nwins as int, t[c].nsims as int, subtree_sims(t, c))
}

/// The position (within the first `m` entries of the child list `cs`) of the
/// first child whose confidence-bound score is maximal: a later child
/// displaces the running best only with a strictly greater score.
pub open spec fn spec_best_scored(t: Seq<Node>, cs: Seq<usize>, m: int) -> int
    decreases m,
{
    if m <= 1 {
        0
    } else {
        let b = spec_best_scored(t, cs, m - 1);
        if spec_child_score(t, cs[m - 1] as int) > spec_child_score(t, cs[b] as int) {
            m - 1
        } else {
            b
        }
    }
}

/// Where selection descends from node `i`: a finished position is returned as
/// it stands; a node already expanded (more than one child) passes selection
/// on to its best-scored child; anything else (no child, or exactly one) is
/// returned for expansion.
pub open spec fn spec_selection(t: Seq<Node>, i: int) -> int
    decreases t.len() - i,
{
    if !(0 <= i < t.len()) {
        i
    } else if spec_is_terminal(t[i].board) {
        i
    } else {
        let cs = t[i].children@;
        if cs.len() > 1 {
            let b = cs[spec_best_scored(t, cs, cs.len() as int)] as int;
            if i < b < t.len() {
                spec_selection(t, b)
            } else {
                i
            }
        } else {
            i
        }
    }
}

/// The child selection descends into carries the maximal confidence-bound
/// score among the first `m` children, and every tie is broken in favour of
/// the earliest child: no child before the chosen one matches its score.
pub proof fn lemma_best_scored_first_max(t: Seq<Node>, cs: Seq<usize>, m: int)
    requires
        1 <= m <= cs.len(),
    ensures
        0 <= spec_best_scored(t, cs, m) < m,
        forall|j: int|
            0 <= j < m ==> #[trigger] spec_child_score(t, cs[j] as int) <= spec_child_score(
                t,
                cs[spec_best_scored(t, cs, m)] as int,
            ),
        forall|j: int|
            0 <= j < spec_best_scored(t, cs, m) ==> #[trigger] spec_child_score(t, cs[j] as int)
                < spec_child_score(t, cs[spec_best_scored(t, cs, m)] as int),
    decreases m,
{
    if m > 1 {
        lemma_best_scored_first_max(t, cs, m - 1);
    }
}

/// A node with exactly one child (or none) is handed back for expansion, not
/// descended into: selection never treats it as already expanded.
pub proof fn lemma_selection_keeps_single_child(t: Seq<Node>, i: int)
    requires
        0 <= i < t.len(),
        t[i].children@.len() <= 1,
    ensures
        spec_selection(t, i) == i,
{
}

/// The confidence-bound score of child node `c`.
fn child_score(t: &Tree, c: usize) -> (r: u64)
    requires
        wf(t.nodes@),
        counters_bounded(t.nodes@),
        child_sims_positive(t.nodes@),
        t.nodes@.len() <= MAX_NODES,
        1 <= c < t.nodes@.len(),
    ensures
        r as int == spec_child_score(t.nodes@, c as int),
{
    proof {
        lemma_subtree_at_least_own(t.nodes@, c as int);
        assert(t.nodes@[c as int].nsims >= 2);
        assert(t.nodes@[c as int].nwins <= t.nodes@[c as int].nsims);
        assert(t.nodes@[c as int].nsims <= 2 * (t.nodes@.len() - 1));
    }
    let total = t.subtree_total(c);
    confidence_bound(t.nodes[c].nwins, t.nodes[c].nsims, total)
}

/// Selection: descends from node `i` along best-scored children of expanded
/// nodes, and returns the node to expand (or a finished position).
pub fn selection(t: &Tree, i: usize) -> (r: usize)
    requires
        wf(t.nodes@),
        counters_bounded(t.nodes@),
        child_sims_positive(t.nodes@),
        t.nodes@.len() <= MAX_NODES,
        i < t.nodes@.len(),
    ensures
        r as int == spec_selection(t.nodes@, i as int),
        r < t.nodes@.len(),
        spec_is_terminal(t.nodes@[r as int].board) || t.nodes@[r as int].children@.len() <= 1,
    decreases t.nodes@.len() - i,
{
    if t.nodes[i].board.is_terminal() {
        return i;
    }
    let m = t.nodes[i].children.len();
    if m > 1 {
        let ghost cs = t.nodes@[i as int].children@;
        proof {
            assert(wf_child_link(t.nodes@, i as int, 0));
        }
        let c0 = t.nodes[i].children[0];
        let mut best: usize = 0;
        let mut best_score: u64 = child_score(t, c0);
        let mut k: usize = 1;
        while k < m
            invariant
                wf(t.nodes@),
                counters_bounded(t.nodes@),
                child_sims_positive(t.nodes@),
                t.nodes@.len() <= MAX_NODES,
                i < t.nodes@.len(),
                cs == t.nodes@[i as int].children@,
                m == cs.len(),
                1 <= k <= m,
                best < k,
                best as int == spec_best_scored(t.nodes@, cs, k as int),
                best_score as int == spec_child_score(t.nodes@, cs[best as int] as int),
            decreases m - k,
        {
            proof {
                assert(wf_child_link(t.nodes@, i as int, k as int));
            }
            let ck = t.nodes[i].children[k];
            let sc = child_score(t, ck);
            if sc > best_score {
                best = k;
                best_score = sc;
            }
            k = k + 1;
        }
        proof {
            assert(wf_child_link(t.nodes@, i as int, best as int));
        }
        let b = t.nodes[i].children[best];
        selection(t, b)
    } else {
        i
    }
}

/// Expansion: enumerates every successor of the target node's position; for
/// each it runs a rollout, appends the successor as a new child (in
/// enumerator order), and backpropagates that one outcome along the new
/// child's ancestor chain: each node on that chain gains exactly 2
/// simulations per new child and between 0 and 2 win credits per outcome,
/// and every node off it keeps its counters. A finished position expands to
/// nothing and leaves every node untouched.
pub fn expansion(t: &mut Tree, target: usize)
    requires
        wf(old(t).nodes@),
        counters_bounded(old(t).nodes@),
        child_sims_positive(old(t).nodes@),
        target < old(t).nodes@.len(),
        old(t).nodes@.len() + 9 <= MAX_NODES,
    ensures
        wf(final(t).nodes@),
        counters_bounded(final(t).nodes@),
        child_sims_positive(final(t).nodes@),
        final(t).nodes@.len() == old(t).nodes@.len() + spec_next_moves(
            old(t).nodes@[target as int].board,
        ).len(),
        final(t).nodes@.len() <= old(t).nodes@.len() + 9,
        forall|j: int|
            0 <= j < old(t).nodes@.len() ==> (#[trigger] final(t).nodes@[j]).board == old(t).nodes@[j].board && final(t).nodes@[j].parent == old(t).nodes@[j].parent,
        forall|j: int|
            0 <= j < old(t).nodes@.len() && j != target ==> (#[trigger] final(t).nodes@[j]).children@ == old(t).nodes@[j].children@,
        forall|q: int|
            0 <= q < spec_next_moves(old(t).nodes@[target as int].board).len() ==> (
            #[trigger] final(t).nodes@[old(t).nodes@.len() + q]).board == spec_next_moves(
                old(t).nodes@[target as int].board,
            )[q] && final(t).nodes@[old(t).nodes@.len() + q].nsims == 2,
        final(t).nodes@[target as int].children@ =~= old(t).nodes@[target as int].children@
            + Seq::new(
            spec_next_moves(old(t).nodes@[target as int].board).len(),
            |q: int| (old(t).nodes@.len() + q) as usize,
        ),
        forall|j: int|
            0 <= j < old(t).nodes@.len() && on_path(old(t).nodes@, target as int, j) ==> (
            #[trigger] final(t).nodes@[j]).nsims == old(t).nodes@[j].nsims + 2 * spec_next_moves(
                old(t).nodes@[target as int].board,
            ).len() && old(t).nodes@[j].nwins <= final(t).nodes@[j].nwins <= old(t).nodes@[j].nwins
                + 2 * spec_next_moves(old(t).nodes@[target as int].board).len(),
        forall|j: int|
            0 <= j < old(t).nodes@.len() && !on_path(old(t).nodes@, target as int, j) ==> (
            #[trigger] final(t).nodes@[j]) == old(t).nodes@[j],
{
    let ghost pre = old(t).nodes@;
    let succs = next_moves(&t.nodes[target].board);
    let ghost sq = spec_next_moves(pre[target as int].board);
    let m = succs.len();
    proof {
        lemma_next_moves_len(pre[target as int].board);
    }
    let mut k: usize = 0;
    while k < m
        invariant
            wf(t.nodes@),
            counters_bounded(t.nodes@),
            child_sims_positive(t.nodes@),
            succs@ == sq,
            sq == spec_next_moves(pre[target as int].board),
            m == sq.len(),
            m <= 9,
            0 <= k <= m,
            target < pre.len(),
            pre.len() + 9 <= MAX_NODES,
            t.nodes@.len() == pre.len() + k,
            forall|j: int|
                0 <= j < pre.len() ==> (#[trigger] t.nodes@[j]).board == pre[j].board
                    && t.nodes@[j].parent == pre[j].parent,
            forall|j: int|
                0 <= j < pre.len() && j != target ==> (#[trigger] t.nodes@[j]).children@
                    == pre[j].children@,
            forall|q: int|
                0 <= q < k ==> (#[trigger] t.nodes@[pre.len() + q]).board == sq[q]
                    && t.nodes@[pre.len() + q].nsims == 2,
            t.nodes@[target as int].children@ =~= pre[target as int].children@ + Seq::new(
                k as nat,
                |q: int| (pre.len() + q) as usize,
            ),
            forall|j: int|
                0 <= j < pre.len() && on_path(pre, target as int, j) ==> (
                #[trigger] t.nodes@[j]).nsims == pre[j].nsims + 2 * k && pre[j].nwins
                    <= t.nodes@[j].nwins <= pre[j].nwins + 2 * k,
            forall|j: int|
                0 <= j < pre.len() && !on_path(pre, target as int, j) ==> (#[trigger] t.nodes@[j])
                    == pre[j],
        decreases m - k,
    {
        let ghost snap0 = t.nodes@;
        let outcome = light_simulation(&succs[k]);
        proof {
            assert(sq[k as int] == succs@[k as int]);
            assert(spec_next_moves(t.nodes@[target as int].board).contains(succs@[k as int])) by {
                assert(spec_next_moves(t.nodes@[target as int].board)[k as int] == succs@[
                k as int]);
            }
        }
        let c = t.append_child(target, succs[k]);
        let ghost snap1 = t.nodes@;
        proof {
            assert forall|j: int| 0 <= j < snap1.len() implies (#[trigger] snap1[j].nsims) + 2
                <= u64::MAX && snap1[j].nwins + 2 <= u64::MAX by {
                if j < snap0.len() {
                    if j == target {
                        assert(snap1[j].nsims == snap0[j].nsims);
                        assert(snap1[j].nwins == snap0[j].nwins);
                    } else {
                        assert(snap1[j] == snap0[j]);
                    }
                    lemma_counters_at(snap0, j);
                    assert(snap0.len() <= MAX_NODES);
                } else {
                    assert(snap1[j].nsims == 0);
                    assert(snap1[j].nwins == 0);
                }
            }
        }
        t.back_propagate(c, outcome);
        k = k + 1;
        proof {
            let post = t.nodes@;
            assert(on_path(snap1, c as int, c as int));
            assert(post[c as int].nsims == 2);
            assert forall|j: int|
                0 <= j < pre.len() implies (#[trigger] post[j]).board == pre[j].board && post[
            j].parent == pre[j].parent by {
                assert(node_same(snap1, post, j));
                if j == target {
                    assert(snap1[j].board == snap0[j].board);
                } else {
                    assert(snap1[j] == snap0[j]);
                }
            }
            assert forall|j: int| 0 <= j < pre.len() && j != target implies (
            #[trigger] post[j]).children@ == pre[j].children@ by {
                assert(node_same(snap1, post, j));
                assert(snap1[j] == snap0[j]);
            }
            assert forall|q: int| 0 <= q < k implies (#[trigger] post[pre.len() + q]).board == sq[q]
                && post[pre.len() + q].nsims == 2 by {
                let idx = pre.len() + q;
                assert(node_same(snap1, post, idx as int));
                if q < k - 1 {
                    assert(snap1[idx as int] == snap0[idx as int]);
                    assert(!on_path(snap1, c as int, idx as int)) by {
                        if on_path(snap1, c as int, idx as int) {
                            assert(parent_of(snap1, c as int) == target);
                            assert(on_path(snap1, target as int, idx as int));
                            lemma_on_path_le(snap1, target as int, idx as int);
                        }
                    }
                    assert(post[idx as int] == snap1[idx as int]);
                }
            }
            assert(node_same(snap1, post, target as int));
            assert(snap1[target as int].children@ == snap0[target as int].children@.push(
                c as usize,
            ));
            assert(post[target as int].children@ =~= pre[target as int].children@ + Seq::new(
                k as nat,
                |q: int| (pre.len() + q) as usize,
            ));
            assert forall|j: int| 0 <= j <= target implies parent_of(snap1, j) == parent_of(
                pre,
                j,
            ) by {
                if j == target {
                    assert(snap1[j].parent == snap0[j].parent);
                } else {
                    assert(snap1[j] == snap0[j]);
                }
                assert(snap0[j].parent == pre[j].parent);
            }
            assert forall|j: int| 0 <= j < pre.len() implies on_path(snap1, c as int, j)
                == on_path(pre, target as int, j) by {
                assert(parent_of(snap1, c as int) == target);
                assert(on_path(snap1, c as int, j) == on_path(snap1, target as int, j));
                lemma_on_path_parents_agree(snap1, pre, target as int, j);
            }
            assert forall|j: int|
                0 <= j < pre.len() && on_path(pre, target as int, j) implies (
            #[trigger] post[j]).nsims == pre[j].nsims + 2 * k && pre[j].nwins <= post[j].nwins <= pre[
            j].nwins + 2 * k by {
                if j == target {
                    assert(snap1[j].nsims == snap0[j].nsims);
                    assert(snap1[j].nwins == snap0[j].nwins);
                } else {
                    assert(snap1[j] == snap0[j]);
                }
                assert(on_path(snap1, c as int, j));
                assert(post[j].nsims == snap1[j].nsims + 2);
                assert(post[j].nwins == snap1[j].nwins + spec_credit(
                    outcome,
                    snap1[j].board.is_whites_turn,
                ));
                assert(0 <= spec_credit(outcome, snap1[j].board.is_whites_turn) <= 2);
            }
            assert forall|j: int|
                0 <= j < pre.len() && !on_path(pre, target as int, j) implies (
            #[trigger] post[j]) == pre[j] by {
                assert(!on_path(snap1, c as int, j));
                assert(post[j] == snap1[j]);
                assert(j != target);
                assert(snap1[j] == snap0[j]);
            }
            assert forall|j: int| 1 <= j < post.len() implies (#[trigger] post[j]).nsims >= 2 by {
                assert(node_same(snap1, post, j));
                if !on_path(snap1, c as int, j) {
                    assert(post[j] == snap1[j]);
                    if j < snap0.len() {
                        if j == target {
                            assert(snap1[j].nsims == snap0[j].nsims);
                        } else {
                            assert(snap1[j] == snap0[j]);
                        }
                    }
                }
            }
            assert forall|j: int| 0 <= j < post.len() implies (#[trigger] post[j]).nwins <= post[
            j].nsims && post[j].nsims <= 2 * (post.len() - 1) by {
                if j < snap0.len() {
                    if on_path(snap1, c as int, j) {
                        if j == target {
                            assert(snap1[j].nsims == snap0[j].nsims);
                            assert(snap1[j].nwins == snap0[j].nwins);
                        } else {
                            assert(snap1[j] == snap0[j]);
                        }
                        assert(post[j].nsims == snap1[j].nsims + 2);
                        assert(snap0[j].nsims <= 2 * (snap0.len() - 1));
                    } else {
                        assert(post[j] == snap1[j]);
                        if j == target {
                            assert(snap1[j].nsims == snap0[j].nsims);
                            assert(snap1[j].nwins == snap0[j].nwins);
                        } else {
                            assert(snap1[j] == snap0[j]);
                        }
                    }
                } else if j == c as int {
                    assert(post[j].nsims == 2);
                    assert(post[j].nwins <= 2);
                } else {
                    assert(post[j] == snap1[j]);
                }
            }
        }
    }
}

/// Whether child node `a` has a strictly better plain win rate than child
/// node `b`: `nwins/nsims` compared exactly, as rationals.
pub open spec fn spec_rate_better(t: Seq<Node>, a: int, b: int) -> bool {
    t[a].nwins * t[b].nsims > t[b].nwins * t[a].nsims
}

/// The position (within the first `m` entries of `cs`) of the first child
/// with the maximal plain win rate.
pub open spec fn spec_best_rated(t: Seq<Node>, cs: Seq<usize>, m: int) -> int
    decreases m,
{
    if m <= 1 {
        0
    } else {
        let b = spec_best_rated(t, cs, m - 1);
        if spec_rate_better(t, cs[m - 1] as int, cs[b] as int) {
            m - 1
        } else {
            b
        }
    }
}

/// Strict rational comparisons of win rates chain: if `a` is no better than
/// `b` and `c` beats `b`, then `c` beats `a`.
proof fn lemma_rate_transitive(w1: int, n1: int, w2: int, n2: int, w3: int, n3: int)
    requires
        n1 >= 1,
        n2 >= 1,
        n3 >= 1,
        w1 * n2 <= w2 * n1,
        w3 * n2 > w2 * n3,
    ensures
        w3 * n1 > w1 * n3,
{
    assert(w3 * n1 * n2 > w1 * n3 * n2) by (nonlinear_arith)
        requires
            n1 >= 1,
            n2 >= 1,
            n3 >= 1,
            w1 * n2 <= w2 * n1,
            w3 * n2 > w2 * n3,
    ;
    assert(w3 * n1 * n2 > w1 * n3 * n2 ==> w3 * n1 > w1 * n3) by (nonlinear_arith)
        requires
            n2 >= 1,
    ;
}

/// The final choice takes the maximal plain win rate, and every tie falls to
/// the earliest child: no child beats the chosen one, and the chosen one
/// strictly beats every child before it.
pub proof fn lemma_best_rated_first_max(t: Seq<Node>, cs: Seq<usize>, m: int)
    requires
        1 <= m <= cs.len(),
        forall|k: int| 0 <= k < m ==> 0 <= #[trigger] cs[k] < t.len() && t[cs[k] as int].nsims >= 1,
    ensures
        0 <= spec_best_rated(t, cs, m) < m,
        forall|j: int|
            0 <= j < m ==> !(#[trigger] spec_rate_better(
                t,
                cs[j] as int,
                cs[spec_best_rated(t, cs, m)] as int,
            )),
        forall|j: int|
            0 <= j < spec_best_rated(t, cs, m) ==> #[trigger] spec_rate_better(
                t,
                cs[spec_best_rated(t, cs, m)] as int,
                cs[j] as int,
            ),
    decreases m,
{
    if m > 1 {
        lemma_best_rated_first_max(t, cs, m - 1);
        let b = spec_best_rated(t, cs, m - 1);
        let pick = spec_best_rated(t, cs, m);
        if spec_rate_better(t, cs[m - 1] as int, cs[b] as int) {
            assert(pick == m - 1);
            assert forall|j: int| 0 <= j < m - 1 implies #[trigger] spec_rate_better(
                t,
                cs[m - 1] as int,
                cs[j] as int,
            ) by {
                assert(!spec_rate_better(t, cs[j] as int, cs[b] as int));
                lemma_rate_transitive(
                    t[cs[j] as int].nwins as int,
                    t[cs[j] as int].nsims as int,
                    t[cs[b] as int].nwins as int,
                    t[cs[b] as int].nsims as int,
                    t[cs[m - 1] as int].nwins as int,
                    t[cs[m - 1] as int].nsims as int,
                );
            }
            assert forall|j: int| 0 <= j < m implies !(#[trigger] spec_rate_better(
                t,
                cs[j] as int,
                cs[m - 1] as int,
            )) by {
                if j < m - 1 {
                    assert(spec_rate_better(t, cs[m - 1] as int, cs[j] as int));
                }
            }
        } else {
            assert(pick == b);
            assert forall|j: int| 0 <= j < m implies !(#[trigger] spec_rate_better(
                t,
                cs[j] as int,
                cs[b] as int,
            )) by {
                if j < m - 1 {
                    assert(!spec_rate_better(t, cs[j] as int, cs[b] as int));
                }
            }
        }
    }
}

/// The root child with the best plain win rate (`nwins/nsims`, not the
/// confidence bound), ties resolved in favour of the earlier child.
pub fn best_child(t: &Tree) -> (c: usize)
    requires
        wf(t.nodes@),
        counters_bounded(t.nodes@),
        child_sims_positive(t.nodes@),
        t.nodes@.len() <= MAX_NODES,
        t.nodes@[0].children@.len() >= 1,
    ensures
        c as usize == t.nodes@[0].children@[spec_best_rated(
            t.nodes@,
            t.nodes@[0].children@,
            t.nodes@[0].children@.len() as int,
        )],
        c < t.nodes@.len(),
        parent_of(t.nodes@, c as int) == 0,
        forall|j: int|
            0 <= j < t.nodes@[0].children@.len() ==> !(#[trigger] spec_rate_better(
                t.nodes@,
                t.nodes@[0].children@[j] as int,
                c as int,
            )),
{
    proof {
        assert forall|k: int| 0 <= k < t.nodes@[0].children@.len() implies 0
            <= #[trigger] t.nodes@[0].children@[k] < t.nodes@.len() && t.nodes@[t.nodes@[0].children@[k] as int].nsims
            >= 1 by {
            assert(wf_child_link(t.nodes@, 0, k));
        }
        lemma_best_rated_first_max(
            t.nodes@,
            t.nodes@[0].children@,
            t.nodes@[0].children@.len() as int,
        );
    }
    let ghost cs = t.nodes@[0].children@;
    let m = t.nodes[0].children.len();
    let mut best: usize = 0;
    let mut k: usize = 1;
    while k < m
        invariant
            wf(t.nodes@),
            counters_bounded(t.nodes@),
            t.nodes@.len() <= MAX_NODES,
            cs == t.nodes@[0].children@,
            m == cs.len(),
            1 <= m,
            1 <= k <= m,
            best < k,
            best as int == spec_best_rated(t.nodes@, cs, k as int),
        decreases m - k,
    {
        proof {
            assert(wf_child_link(t.nodes@, 0, k as int));
            assert(wf_child_link(t.nodes@, 0, best as int));
            let a = cs[k as int] as int;
            let b = cs[best as int] as int;
            assert(cs[k as int] == t.nodes@[0].children@[k as int]);
            assert(cs[best as int] == t.nodes@[0].children@[best as int]);
            assert(0 < a < t.nodes@.len());
            assert(0 < b < t.nodes@.len());
            lemma_counters_at(t.nodes@, a);
            lemma_counters_at(t.nodes@, b);
            assert((t.nodes@[a].nwins as int) * (t.nodes@[b].nsims as int) <= 0x200_0000
                * 0x200_0000 && (t.nodes@[b].nwins as int) * (t.nodes@[a].nsims as int)
                <= 0x200_0000 * 0x200_0000) by (nonlinear_arith)
                requires
                    0 <= t.nodes@[a].nwins <= 0x200_0000,
                    0 <= t.nodes@[b].nwins <= 0x200_0000,
                    0 <= t.nodes@[a].nsims <= 0x200_0000,
                    0 <= t.nodes@[b].nsims <= 0x200_0000,
            ;
        }
        let ck = t.nodes[0].children[k];
        let cb = t.nodes[0].children[best];
        if t.nodes[ck].nwins * t.nodes[cb].nsims > t.nodes[cb].nwins * t.nodes[ck].nsims {
            best = k;
        }
        k = k + 1;
    }
    proof {
        assert(wf_child_link(t.nodes@, 0, best as int));
    }
    t.nodes[0].children[best]
}

/// Chooses a move for `board` by Monte Carlo tree search under a time budget
/// of `budget_ms` milliseconds (a minimum: the last iteration may overrun
/// it). The returned board is always a legal successor of `board`. A finished
/// position leaves the root without children, which is reported as
/// `NoChildren`; a wall clock that cannot be read or runs backwards aborts
/// the search with `ClockUnavailable`.
pub fn choose_move(board: &Board, budget_ms: u64) -> (r: Result<Board, SearchError>)
    ensures
        r matches Ok(b) ==> !spec_is_terminal(*board) && spec_next_moves(*board).contains(b),
        spec_is_terminal(*board) ==> !(r is Ok),
        r == Result::<Board, SearchError>::Err(SearchError::NoChildren) ==> spec_is_terminal(
            *board,
        ),
        !spec_is_terminal(*board) ==> (r is Ok || r == Result::<Board, SearchError>::Err(
            SearchError::ClockUnavailable,
        )),
{
    let mut tree = Tree::new(*board);
    let start = match clock_millis() {
        Some(s) => s,
        None => {
            return Err(SearchError::ClockUnavailable);
        },
    };
    let mut iters: u64 = 0;
    loop
        invariant_except_break
            tree.nodes@.len() + 9 <= MAX_NODES,
            iters < ITER_CAP,
            iters == 0 ==> tree.nodes@[0].children@.len() == 0,
        invariant
            wf(tree.nodes@),
            counters_bounded(tree.nodes@),
            child_sims_positive(tree.nodes@),
            tree.nodes@.len() <= MAX_NODES,
            tree.nodes@[0].board == *board,
            !spec_is_terminal(*board) && iters >= 1 ==> tree.nodes@[0].children@.len() >= 1,
            spec_is_terminal(*board) ==> tree.nodes@[0].children@.len() == 0,
        ensures
            wf(tree.nodes@),
            counters_bounded(tree.nodes@),
            tree.nodes@.len() <= MAX_NODES,
            tree.nodes@[0].board == *board,
            !spec_is_terminal(*board) ==> tree.nodes@[0].children@.len() >= 1,
            spec_is_terminal(*board) ==> tree.nodes@[0].children@.len() == 0,
        decreases ITER_CAP - iters,
    {
        let ghost before = tree.nodes@;
        let sel = selection(&tree, 0);
        proof {
            if spec_is_terminal(*board) {
                assert(sel == 0);
            }
        }
        expansion(&mut tree, sel);
        proof {
            if spec_is_terminal(*board) {
                assert(spec_next_moves(before[sel as int].board).len() == 0);
            }
            if !spec_is_terminal(*board) && iters == 0 {
                assert(sel == 0);
                lemma_next_moves_nonempty(*board);
            }
        }
        iters = iters + 1;
        match clock_millis() {
            None => {
                return Err(SearchError::ClockUnavailable);
            },
            Some(now) => {
                if now < start {
                    return Err(SearchError::ClockUnavailable);
                }
                if now - start > budget_ms {
                    break ;
                }
            },
        }
        if iters >= ITER_CAP || tree.len() + 18 > MAX_NODES {
            break ;
        }
    }
    if tree.nodes[0].children.len() == 0 {
        return Err(SearchError::NoChildren);
    }
    let c = best_child(&tree);
    proof {
        assert(c != 0);
        assert(wf_link(tree.nodes@, c as int));
        assert(legal_child(tree.nodes@[0].board, tree.nodes@[c as int].board));
        reveal(legal_child);
    }
    Ok(tree.nodes[c].board)
}

} // verus!
