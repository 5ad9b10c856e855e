//! The search tree: an arena of nodes addressed by indices, with parent and
//! children links, per-node counters, and backpropagation along ancestor
//! chains.

use vstd::prelude::*;

use crate::board::Board;
use crate::board::GameResult;
use crate::moves::spec_next_moves;

verus! {

/// The search tree never grows past this many nodes; the bound keeps every
/// counter and every score computation far from overflow.
pub const MAX_NODES: usize = 0x100_0000;

/// One node of the search tree: a board snapshot, the win-credit and
/// simulation counters, and the links into the arena.
pub struct Node {
    pub board: Board,
    pub nwins: u64,
    pub nsims: u64,
    pub parent: Option<usize>,
    pub children: Vec<usize>,
}

/// An arena of nodes addressed by index. Node 0 is the root; children record
/// insertion order; no node is ever moved or freed.
pub struct Tree {
    pub nodes: Vec<Node>,
}

/// The board of a child node is one the move enumerator yields for its
/// parent's board. Kept opaque so that tree proofs do not unfold the
/// enumerator; reveal it where the link is established or used.
#[verifier::opaque]
pub open spec fn legal_child(parent: Board, child: Board) -> bool {
    spec_next_moves(parent).contains(child)
}

/// The parent index of node `j`, or -1 for the root.
pub open spec fn parent_of(t: Seq<Node>, j: int) -> int {
    match t[j].parent {
        Some(p) => p as int,
        None => -1,
    }
}

/// A non-root node points back to an earlier parent that lists it among its
/// children and whose board it is a legal successor of.
pub open spec fn wf_link(t: Seq<Node>, j: int) -> bool {
    &&& t[j].parent is Some
    &&& 0 <= parent_of(t, j) < j
    &&& t[parent_of(t, j)].children@.contains(j as usize)
    &&& legal_child(t[parent_of(t, j)].board, t[j].board)
}

/// The `k`-th child link of node `i` points forward to a node that points
/// back to `i`.
pub open spec fn wf_child_link(t: Seq<Node>, i: int, k: int) -> bool {
    i < t[i].children@[k] < t.len() && parent_of(t, t[i].children@[k] as int) == i
}

/// Well-formed arena: node 0 is the only root, and the parent and child
/// links agree.
pub open spec fn wf(t: Seq<Node>) -> bool {
    &&& t.len() >= 1
    &&& t[0].parent is None
    &&& forall|j: int| 1 <= j < t.len() ==> #[trigger] wf_link(t, j)
    &&& forall|i: int, k: int|
        0 <= i < t.len() && 0 <= k < t[i].children@.len() ==> #[trigger] wf_child_link(t, i, k)
}

/// Every counter is within the budget the tree size allows: win credits never
/// exceed simulations, and a node is touched at most once per node creation.
pub open spec fn counters_bounded(t: Seq<Node>) -> bool {
    forall|j: int|
        0 <= j < t.len() ==> (#[trigger] t[j].nwins) <= t[j].nsims && t[j].nsims <= 2 * (t.len()
            - 1)
}

/// Every node but the root has been simulated at least once (it received its
/// creation backpropagation).
pub open spec fn child_sims_positive(t: Seq<Node>) -> bool {
    forall|j: int| 1 <= j < t.len() ==> (#[trigger] t[j].nsims) >= 2
}

/// Node `v` lies on the ancestor chain of `u` (including `u` itself and the
/// root).
pub open spec fn on_path(t: Seq<Node>, u: int, v: int) -> bool
    decreases u,
{
    if u == v {
        true
    } else if 0 <= u < t.len() && 0 <= parent_of(t, u) < u {
        on_path(t, parent_of(t, u), v)
    } else {
        false
    }
}

/// The simulations of the nodes among the first `n` whose ancestor chain
/// passes through `v`.
pub open spec fn total_upto(t: Seq<Node>, v: int, n: int) -> int
    decreases n,
{
    if n <= 0 {
        0
    } else {
        total_upto(t, v, n - 1) + (if on_path(t, n - 1, v) {
            t[n - 1].nsims as int
        } else {
            0
        })
    }
}

/// The total simulation count over the full subtree of `v`: `v`'s own
/// simulations plus those of all its descendants.
pub open spec fn subtree_sims(t: Seq<Node>, v: int) -> int {
    total_upto(t, v, t.len() as int)
}

/// Node `j` has the same links and board in both arenas.
pub open spec fn node_same(a: Seq<Node>, b: Seq<Node>, j: int) -> bool {
    &&& b[j].parent == a[j].parent
    &&& b[j].children@ == a[j].children@
    &&& b[j].board == a[j].board
}

/// The two arenas have the same shape and boards; only counters may differ.
pub open spec fn same_structure(a: Seq<Node>, b: Seq<Node>) -> bool {
    &&& a.len() == b.len()
    &&& forall|j: int| 0 <= j < a.len() ==> #[trigger] node_same(a, b, j)
}

/// How the backpropagation of one outcome changes a node's win credit: 2 when
/// the outcome favours the side that is not to move there (the side that just
/// moved in), 1 on a cats game, 0 otherwise.
pub open spec fn spec_credit(result: GameResult, is_whites_turn: bool) -> int {
    match result {
        GameResult::WhiteWins => if !is_whites_turn {
            2
        } else {
            0
        },
        GameResult::BlackWins => if is_whites_turn {
            2
        } else {
            0
        },
        GameResult::CatsGame => 1,
    }
}

/// Two arenas that agree on the parent links up to index `u` agree on `u`'s
/// whole ancestor chain.
pub proof fn lemma_on_path_parents_agree(a: Seq<Node>, b: Seq<Node>, u: int, v: int)
    requires
        0 <= u < a.len(),
        u < b.len(),
        forall|j: int| 0 <= j <= u ==> parent_of(a, j) == parent_of(b, j),
    ensures
        on_path(a, u, v) == on_path(b, u, v),
    decreases u,
{
    if u != v && 0 <= parent_of(a, u) < u {
        lemma_on_path_parents_agree(a, b, parent_of(a, u), v);
    }
}

/// The counter budget, instantiated at one node.
pub proof fn lemma_counters_at(t: Seq<Node>, j: int)
    requires
        counters_bounded(t),
        0 <= j < t.len(),
    ensures
        t[j].nwins <= t[j].nsims,
        t[j].nsims <= 2 * (t.len() - 1),
{
    assert(t[j].nwins <= t[j].nsims && t[j].nsims <= 2 * (t.len() - 1));
}

/// Anything on the ancestor chain of `u` lies at `u` or before it.
pub proof fn lemma_on_path_le(t: Seq<Node>, u: int, v: int)
    requires
        on_path(t, u, v),
    ensures
        v <= u,
    decreases u,
{
    if u != v {
        lemma_on_path_le(t, parent_of(t, u), v);
    }
}

/// In a well-formed arena the root lies on every node's ancestor chain.
pub proof fn lemma_root_on_path(t: Seq<Node>, u: int)
    requires
        wf(t),
        0 <= u < t.len(),
    ensures
        on_path(t, u, 0),
    decreases u,
{
    if u != 0 {
        assert(wf_link(t, u));
        lemma_root_on_path(t, parent_of(t, u));
    }
}

/// Well-formedness reads only shape and boards.
pub proof fn lemma_wf_same_structure(a: Seq<Node>, b: Seq<Node>)
    requires
        wf(a),
        same_structure(a, b),
    ensures
        wf(b),
{
    assert(node_same(a, b, 0));
    assert forall|j: int| 1 <= j < b.len() implies #[trigger] wf_link(b, j) by {
        assert(wf_link(a, j));
        assert(node_same(a, b, j));
        assert(node_same(a, b, parent_of(a, j)));
    }
    assert forall|i: int, k: int|
        0 <= i < b.len() && 0 <= k < b[i].children@.len() implies #[trigger] wf_child_link(
        b,
        i,
        k,
    ) by {
        assert(node_same(a, b, i));
        assert(wf_child_link(a, i, k));
        assert(node_same(a, b, a[i].children@[k] as int));
    }
}

/// Subtree totals are sums of non-negative counters, bounded by the counter
/// budget.
pub proof fn lemma_total_upto_bound(t: Seq<Node>, v: int, n: int)
    requires
        counters_bounded(t),
        0 <= n <= t.len(),
    ensures
        0 <= total_upto(t, v, n) <= 2 * n * (t.len() - 1),
    decreases n,
{
    if n > 0 {
        lemma_total_upto_bound(t, v, n - 1);
        assert(t[n - 1].nwins <= t[n - 1].nsims && t[n - 1].nsims <= 2 * (t.len() - 1));
        assert(2 * (n - 1) * (t.len() - 1) + 2 * (t.len() - 1) == 2 * n * (t.len() - 1) && 2 * (n
            - 1) * (t.len() - 1) <= 2 * n * (t.len() - 1)) by (nonlinear_arith)
            requires
                1 <= n <= t.len(),
        ;
        assert(total_upto(t, v, n) <= total_upto(t, v, n - 1) + 2 * (t.len() - 1));
        assert(total_upto(t, v, n) <= 2 * (n - 1) * (t.len() - 1) + 2 * (t.len() - 1));
    } else {
        assert(2 * n * (t.len() - 1) == 0) by (nonlinear_arith)
            requires
                n == 0,
        ;
    }
}

/// Subtree totals only accumulate.
pub proof fn lemma_total_upto_mono(t: Seq<Node>, v: int, n1: int, n2: int)
    requires
        0 <= n1 <= n2,
    ensures
        total_upto(t, v, n1) <= total_upto(t, v, n2),
    decreases n2,
{
    if n2 > n1 {
        lemma_total_upto_mono(t, v, n1, n2 - 1);
    }
}

/// Subtree totals are non-negative.
pub proof fn lemma_total_upto_nonneg(t: Seq<Node>, v: int, n: int)
    ensures
        total_upto(t, v, n) >= 0,
    decreases n,
{
    if n > 0 {
        lemma_total_upto_nonneg(t, v, n - 1);
    }
}

/// A node's subtree total counts at least its own simulations.
pub proof fn lemma_subtree_at_least_own(t: Seq<Node>, v: int)
    requires
        0 <= v < t.len(),
    ensures
        subtree_sims(t, v) >= t[v].nsims,
{
    lemma_total_upto_nonneg(t, v, v);
    assert(on_path(t, v, v));
    assert(total_upto(t, v, v + 1) >= t[v].nsims);
    lemma_total_upto_mono(t, v, v + 1, t.len() as int);
}

impl Node {
    /// A fresh, never-simulated node holding a board snapshot.
    pub fn new(board: Board) -> (n: Node)
        ensures
            n.board == board,
            n.nwins == 0,
            n.nsims == 0,
            n.parent is None,
            n.children@ == Seq::<usize>::empty(),
    {
        Node { board, nwins: 0, nsims: 0, parent: None, children: Vec::new() }
    }
}

impl Tree {
    /// A fresh tree holding only a root with the given board.
    pub fn new(board: Board) -> (t: Tree)
        ensures
            wf(t.nodes@),
            counters_bounded(t.nodes@),
            child_sims_positive(t.nodes@),
            t.nodes@.len() == 1,
            t.nodes@[0].board == board,
            t.nodes@[0].nwins == 0,
            t.nodes@[0].nsims == 0,
            t.nodes@[0].children@ == Seq::<usize>::empty(),
    {
        let mut nodes: Vec<Node> = Vec::new();
        nodes.push(Node::new(board));
        Tree { nodes }
    }

    pub fn len(&self) -> (n: usize)
        ensures
            n == self.nodes@.len(),
    {
        self.nodes.len()
    }

    /// Appends a fresh node under `parent` and returns its index. The new
    /// node becomes the last child of `parent`; nothing else moves.
    pub fn append_child(&mut self, parent: usize, board: Board) -> (c: usize)
        requires
            wf(old(self).nodes@),
            parent < old(self).nodes@.len(),
            old(self).nodes@.len() < MAX_NODES,
            spec_next_moves(old(self).nodes@[parent as int].board).contains(board),
        ensures
            wf(final(self).nodes@),
            c == old(self).nodes@.len(),
            final(self).nodes@.len() == old(self).nodes@.len() + 1,
            forall|j: int|
                0 <= j < old(self).nodes@.len() && j != parent ==> final(self).nodes@[j] == old(
                    self,
                ).nodes@[j],
            final(self).nodes@[parent as int].children@ == old(
                self,
            ).nodes@[parent as int].children@.push(c),
            final(self).nodes@[parent as int].board == old(self).nodes@[parent as int].board,
            final(self).nodes@[parent as int].nwins == old(self).nodes@[parent as int].nwins,
            final(self).nodes@[parent as int].nsims == old(self).nodes@[parent as int].nsims,
            final(self).nodes@[parent as int].parent == old(self).nodes@[parent as int].parent,
            final(self).nodes@[c as int].board == board,
            final(self).nodes@[c as int].nwins == 0,
            final(self).nodes@[c as int].nsims == 0,
            final(self).nodes@[c as int].parent == Some(parent),
            final(self).nodes@[c as int].children@ == Seq::<usize>::empty(),
    {
        let c = self.nodes.len();
        let mut node = Node::new(board);
        node.parent = Some(parent);
        self.nodes.push(node);
        self.nodes[parent].children.push(c);
        proof {
            let pre = old(self).nodes@;
            let post = self.nodes@;
            assert forall|j: int| 1 <= j < post.len() implies #[trigger] wf_link(post, j) by {
                if j < c {
                    assert(wf_link(pre, j));
                    let p = parent_of(pre, j);
                    assert(post[j].parent == pre[j].parent);
                    assert(pre[p].children@.contains(j as usize));
                    let k = choose|k: int|
                        0 <= k < pre[p].children@.len() && pre[p].children@[k] == j as usize;
                    if p == parent {
                        assert(post[p].children@[k] == j as usize);
                    } else {
                        assert(post[p].children@ == pre[p].children@);
                    }
                    assert(post[p].children@.contains(j as usize));
                    assert(post[p].board == pre[p].board);
                } else {
                    assert(post[parent as int].children@[pre[parent as int].children@.len() as int]
                        == c);
                    assert(post[parent as int].children@.contains(c as usize));
                    assert(legal_child(post[parent as int].board, board)) by {
                        reveal(legal_child);
                    }
                }
            }
            assert forall|i: int, k: int|
                0 <= i < post.len() && 0 <= k < post[i].children@.len() implies
                #[trigger] wf_child_link(post, i, k) by {
                if i == parent && k == post[i].children@.len() - 1 {
                    assert(post[i].children@[k] == c);
                    assert(parent_of(post, c as int) == parent);
                } else if i < c {
                    assert(wf_child_link(pre, i, k));
                    assert(post[i].children@[k] == pre[i].children@[k]);
                    let ch = pre[i].children@[k] as int;
                    assert(post[ch].parent == pre[ch].parent);
                }
            }
        }
        c
    }

    /// Whether node `v` lies on the ancestor chain of node `u`.
    pub fn is_on_path(&self, u: usize, v: usize) -> (r: bool)
        requires
            wf(self.nodes@),
            u < self.nodes@.len(),
            v < self.nodes@.len(),
        ensures
            r == on_path(self.nodes@, u as int, v as int),
        decreases u,
    {
        if u == v {
            true
        } else {
            proof {
                if u != 0 {
                    assert(wf_link(self.nodes@, u as int));
                }
            }
            match self.nodes[u].parent {
                None => false,
                Some(p) => self.is_on_path(p, v),
            }
        }
    }

    /// The total simulation count over the full subtree of `v` (`v` itself
    /// plus all its descendants).
    pub fn subtree_total(&self, v: usize) -> (r: u64)
        requires
            wf(self.nodes@),
            counters_bounded(self.nodes@),
            self.nodes@.len() <= MAX_NODES,
            v < self.nodes@.len(),
        ensures
            r as int == subtree_sims(self.nodes@, v as int),
    {
        let ghost t = self.nodes@;
        let n = self.nodes.len();
        let mut acc: u64 = 0;
        for u in 0..n
            invariant
                wf(t),
                counters_bounded(t),
                t.len() <= MAX_NODES,
                v < t.len(),
                n == t.len(),
                t == self.nodes@,
                acc as int == total_upto(t, v as int, u as int),
        {
            proof {
                lemma_total_upto_bound(t, v as int, u + 1);
                assert(2 * (u + 1) * (t.len() - 1) <= 2 * 0x100_0000 * 0x100_0000)
                    by (nonlinear_arith)
                    requires
                        0 <= u + 1 <= t.len() <= 0x100_0000,
                ;
            }
            if self.is_on_path(u, v) {
                acc = acc + self.nodes[u].nsims;
            }
        }
        acc
    }

    /// Records one simulation outcome on every node of the ancestor chain of
    /// `child` (the child itself up to and including the root): the
    /// simulation counter grows by exactly 2, and the win credit by 2, 1 or 0
    /// as the outcome and the node's turn flag dictate. No other node and no
    /// link changes.
    pub fn back_propagate(&mut self, child: usize, result: GameResult)
        requires
            wf(old(self).nodes@),
            child < old(self).nodes@.len(),
            forall|j: int|
                0 <= j < old(self).nodes@.len() ==> (#[trigger] old(self).nodes@[j].nsims) + 2
                    <= u64::MAX && old(self).nodes@[j].nwins + 2 <= u64::MAX,
        ensures
            wf(final(self).nodes@),
            same_structure(old(self).nodes@, final(self).nodes@),
            forall|j: int|
                0 <= j < old(self).nodes@.len() && on_path(old(self).nodes@, child as int, j)
                    ==> (#[trigger] final(self).nodes@[j]).nsims == old(self).nodes@[j].nsims + 2
                    && final(self).nodes@[j].nwins == old(self).nodes@[j].nwins + spec_credit(
                    result,
                    old(self).nodes@[j].board.is_whites_turn,
                ),
            forall|j: int|
                0 <= j < old(self).nodes@.len() && !on_path(old(self).nodes@, child as int, j)
                    ==> (#[trigger] final(self).nodes@[j]) == old(self).nodes@[j],
    {
        let ghost pre = old(self).nodes@;
        let mut cur = child;
        loop
            invariant_except_break
                forall|j: int|
                    0 <= j < pre.len() && on_path(pre, child as int, j) && !on_path(
                        pre,
                        cur as int,
                        j,
                    ) ==> (#[trigger] self.nodes@[j]).nsims == pre[j].nsims + 2
                        && self.nodes@[j].nwins == pre[j].nwins + spec_credit(
                        result,
                        pre[j].board.is_whites_turn,
                    ),
                forall|j: int|
                    0 <= j < pre.len() && !(on_path(pre, child as int, j) && !on_path(
                        pre,
                        cur as int,
                        j,
                    )) ==> (#[trigger] self.nodes@[j]) == pre[j],
            invariant
                wf(pre),
                child < pre.len(),
                cur < pre.len(),
                forall|j: int|
                    0 <= j < pre.len() ==> (#[trigger] pre[j].nsims) + 2 <= u64::MAX && pre[j].nwins
                        + 2 <= u64::MAX,
                same_structure(pre, self.nodes@),
                on_path(pre, child as int, cur as int),
            ensures
                same_structure(pre, self.nodes@),
                forall|j: int|
                    0 <= j < pre.len() && on_path(pre, child as int, j) ==> (
                    #[trigger] self.nodes@[j]).nsims == pre[j].nsims + 2 && self.nodes@[j].nwins
                        == pre[j].nwins + spec_credit(result, pre[j].board.is_whites_turn),
                forall|j: int|
                    0 <= j < pre.len() && !on_path(pre, child as int, j) ==> (
                    #[trigger] self.nodes@[j]) == pre[j],
            decreases cur,
        {
            let ghost snap = self.nodes@;
            proof {
                assert(on_path(pre, cur as int, cur as int));
                assert(self.nodes@[cur as int] == pre[cur as int]);
            }
            let white_turn = self.nodes[cur].board.is_whites_turn;
            let bump: u64 = match result {
                GameResult::WhiteWins => if !white_turn {
                    2
                } else {
                    0
                },
                GameResult::BlackWins => if white_turn {
                    2
                } else {
                    0
                },
                GameResult::CatsGame => 1,
            };
            let s = self.nodes[cur].nsims;
            self.nodes[cur].nsims = s + 2;
            let w = self.nodes[cur].nwins;
            self.nodes[cur].nwins = w + bump;
            proof {
                assert(self.nodes@[cur as int].nsims == pre[cur as int].nsims + 2);
                assert(self.nodes@[cur as int].nwins == pre[cur as int].nwins + spec_credit(
                    result,
                    pre[cur as int].board.is_whites_turn,
                ));
                assert(forall|j: int|
                    0 <= j < pre.len() && j != cur ==> (#[trigger] self.nodes@[j]) == snap[j]);
                assert forall|j: int| 0 <= j < pre.len() implies #[trigger] node_same(
                    pre,
                    self.nodes@,
                    j,
                ) by {
                    assert(node_same(pre, snap, j));
                }
            }
            match self.nodes[cur].parent {
                None => {
                    proof {
                        assert(self.nodes@[cur as int].parent == pre[cur as int].parent);
                        if cur != 0 {
                            assert(wf_link(pre, cur as int));
                        }
                        assert(cur == 0);
                        assert forall|j: int|
                            0 <= j < pre.len() && on_path(pre, child as int, j) implies (
                        #[trigger] self.nodes@[j]).nsims == pre[j].nsims + 2
                            && self.nodes@[j].nwins == pre[j].nwins + spec_credit(
                            result,
                            pre[j].board.is_whites_turn,
                        ) by {
                            if j != 0 {
                                assert(!on_path(pre, 0, j));
                                assert(self.nodes@[j] == snap[j]);
                            }
                        }
                        lemma_root_on_path(pre, child as int);
                        assert forall|j: int|
                            0 <= j < pre.len() && !on_path(pre, child as int, j) implies (
                        #[trigger] self.nodes@[j]) == pre[j] by {
                            assert(j != 0);
                            assert(self.nodes@[j] == snap[j]);
                        }
                    }
                    break ;
                },
                Some(p) => {
                    proof {
                        assert(self.nodes@[cur as int].parent == pre[cur as int].parent);
                        if cur != 0 {
                            assert(wf_link(pre, cur as int));
                        }
                        assert(cur != 0);
                        assert(0 <= p < cur);
                        assert(parent_of(pre, cur as int) == p as int);
                        lemma_on_path_parent(pre, child as int, cur as int);
                        assert(on_path(pre, child as int, p as int));
                        assert(!on_path(pre, p as int, cur as int)) by {
                            if on_path(pre, p as int, cur as int) {
                                lemma_on_path_le(pre, p as int, cur as int);
                            }
                        }
                        assert forall|j: int|
                            0 <= j < pre.len() && on_path(pre, child as int, j) && !on_path(
                                pre,
                                p as int,
                                j,
                            ) implies (#[trigger] self.nodes@[j]).nsims == pre[j].nsims + 2
                            && self.nodes@[j].nwins == pre[j].nwins + spec_credit(
                            result,
                            pre[j].board.is_whites_turn,
                        ) by {
                            if j != cur as int {
                                assert(!on_path(pre, cur as int, j));
                                assert(self.nodes@[j] == snap[j]);
                            }
                        }
                        assert forall|j: int|
                            0 <= j < pre.len() && !(on_path(pre, child as int, j) && !on_path(
                                pre,
                                p as int,
                                j,
                            )) implies (#[trigger] self.nodes@[j]) == pre[j] by {
                            if on_path(pre, child as int, j) {
                                assert(on_path(pre, p as int, j));
                                if j == cur as int {
                                    lemma_on_path_le(pre, p as int, cur as int);
                                }
                                assert(on_path(pre, cur as int, j));
                                assert(self.nodes@[j] == snap[j]);
                            } else {
                                assert(j != cur as int);
                                assert(self.nodes@[j] == snap[j]);
                            }
                        }
                    }
                    cur = p;
                },
            }
        }
        proof {
            lemma_wf_same_structure(pre, self.nodes@);
        }
    }
}

/// The ancestor chain continues through the parent: if `v` lies on the chain
/// of `u`, so does `v`'s parent.
proof fn lemma_on_path_parent(t: Seq<Node>, u: int, v: int)
    requires
        on_path(t, u, v),
        0 <= v < t.len(),
        0 <= parent_of(t, v) < v,
    ensures
        on_path(t, u, parent_of(t, v)),
    decreases u,
{
    if u != v {
        lemma_on_path_parent(t, parent_of(t, u), v);
    } else {
        assert(on_path(t, parent_of(t, v), parent_of(t, v)));
        assert(on_path(t, v, parent_of(t, v)));
    }
}

} // verus!
