//! Search nodes and the tree that holds them.
//!
//! The tree is an arena: `nodes[0]` is the true root (the empty board), and
//! the children of a node, once published, are a contiguous run of later
//! nodes, in the order in which the rules list the legal moves.
use super::utils::{
    ilog2, isqrt, log2_floor, random_best, sqrt_floor, AtomicBox,
};
use crate::gomoku::{all_valid, free_cells, Gomoku, Move, State};
use crate::interface::Game;
use vstd::prelude::*;

verus! {

/// Result marking a proven win for the player who made the node's move.
pub const WIN: i32 = 2147483647;

/// Result marking a proven loss; it negates to `WIN`.
pub const LOSS: i32 = -2147483647;

/// Fixed-point scale of the win ratio in a selection score.
pub const SCALE: u64 = 65536;

/// Selection score of a proven win: above every other score.
pub const SCORE_PROVEN_WIN: i64 = 9223372036854775807;

/// Selection score of an unvisited node while exploring: above every finite
/// score, below a proven win.
pub const SCORE_UNVISITED: i64 = 9223372036854775806;

/// Proven outcome of a node, for the player who made its move.
#[derive(Clone, Copy, PartialEq, Eq, Structural, Debug)]
pub enum Proven {
    Unknown,
    Win,
    Loss,
}

/// Where the children of a node stand in the tree: `nodes[first..first + len]`.
#[derive(Clone, Copy, PartialEq, Eq, Structural, Debug)]
pub struct NodeExpansion {
    pub first: usize,
    pub len: usize,
}

#[derive(Clone, Copy)]
pub struct Node {
    /// The move from the parent to here; `None` only at the root.
    pub m: Option<Move>,
    pub visits: u32,
    /// +1 for wins, -1 for losses, 0 for draws, from the perspective of the
    /// player who made `m`, less the virtual losses still pending.
    pub score: i64,
    pub winner: Proven,
    /// The children, published at most once.
    pub expansion: AtomicBox<NodeExpansion>,
}

/// A simulation result: a proven sentinel or a reward in -1..=1.
pub open spec fn is_result(r: i32) -> bool {
    r == WIN || r == LOSS || -1 <= r <= 1
}

pub open spec fn sat_add(a: i64, b: int) -> i64 {
    if a + b > i64::MAX {
        i64::MAX
    } else {
        (a + b) as i64
    }
}

/// The sentinel that reports a proven node.
pub open spec fn sentinel_of(p: Proven) -> i32 {
    match p {
        Proven::Win => WIN,
        Proven::Loss => LOSS,
        Proven::Unknown => 0,
    }
}

/// A node just created for move `m`, with no statistics and no children.
pub open spec fn is_fresh(n: Node) -> bool {
    &&& n.m matches Some(mv) && mv.valid()
    &&& n.visits == 0
    &&& n.score == 0
    &&& n.winner == Proven::Unknown
    &&& n.expansion.content().is_none()
}

/// The moves of a list of nodes that all have one.
pub open spec fn moves_of(ns: Seq<Node>) -> Seq<Move> {
    ns.map_values(|n: Node| n.m.unwrap())
}

impl Node {
    /// The win ratio is well defined: the score never falls below minus the
    /// visit count.
    pub open spec fn stats_ok(self) -> bool {
        self.score + self.visits >= 0
    }

    /// The node after a virtual loss: one more visit, one less score point.
    pub open spec fn virtual_loss(self) -> Node {
        if self.visits < u32::MAX {
            Node { visits: (self.visits + 1) as u32, score: (self.score - 1) as i64, ..self }
        } else {
            self
        }
    }

    /// The node after the result `r` of a simulation through it: a sentinel
    /// labels it, unless it is proven already (a label is never revised); a
    /// reward adds `r + 1`, which cancels the virtual loss.
    pub open spec fn settled(self, r: i32) -> Node {
        if r == WIN || r == LOSS {
            if self.winner == Proven::Unknown {
                Node { winner: if r == WIN { Proven::Win } else { Proven::Loss }, ..self }
            } else {
                self
            }
        } else {
            Node { score: sat_add(self.score, r + 1), ..self }
        }
    }

    pub fn new(m: Option<Move>) -> (r: Self)
        ensures
            r.m == m,
            r.visits == 0,
            r.score == 0,
            r.winner == Proven::Unknown,
            r.expansion.content().is_none(),
    {
        Node {
            m,
            expansion: AtomicBox::default(),
            visits: 0,
            score: 0,
            winner: Proven::Unknown,
        }
    }

    /// Virtual loss: count the visit and assume it is lost until its result
    /// comes, so that other selections steer away from this path.
    pub fn pre_update_stats(&mut self)
        requires
            old(self).stats_ok(),
        ensures
            *final(self) == old(self).virtual_loss(),
    {
        if self.visits < u32::MAX {
            self.visits = self.visits + 1;
            self.score = self.score - 1;
        }
    }

    /// Records the result of a simulation through this node and returns it.
    pub fn update_stats(&mut self, result: i32) -> (r: i32)
        requires
            is_result(result),
        ensures
            *final(self) == old(self).settled(result),
            r == result,
    {
        if result == WIN || result == LOSS {
            if self.winner == Proven::Unknown {
                self.winner = if result == WIN {
                    Proven::Win
                } else {
                    Proven::Loss
                };
            }
        } else {
            let add = result as i64 + 1;
            self.score = if self.score > i64::MAX - add {
                i64::MAX
            } else {
                self.score + add
            };
        }
        result
    }

    /// The selection score of this node under a parent whose visit count has
    /// `log_parent` as its floor of log2, for exploration weight
    /// `exploration / 1000`.
    pub open spec fn uct_key(self, log_parent: int, exploration: int) -> int {
        match self.winner {
            Proven::Loss => -1,
            Proven::Win => SCORE_PROVEN_WIN as int,
            Proven::Unknown => if self.visits == 0 {
                if exploration > 0 {
                    SCORE_UNVISITED as int
                } else {
                    0
                }
            } else {
                1000 * self.win_share() + exploration * sqrt_floor(
                    2 * log_parent * SCALE * SCALE / self.visits as int,
                )
            },
        }
    }

    /// The win ratio `(score + visits) / (2 visits)` in units of `1 / SCALE`,
    /// a score above the visit count counting as all wins.
    pub open spec fn win_share(self) -> int {
        let v = self.visits as int;
        let num = if self.score + v > 2 * v {
            2 * v
        } else {
            self.score + v
        };
        num * SCALE / (2 * v)
    }

    /// The selection score: a proven win above all, a proven loss below all,
    /// else the win ratio plus the exploration term
    /// `exploration / 1000 * sqrt(2 * log_parent / visits)`, in fixed point.
    pub fn uct_score(&self, exploration: u32, log_parent: u32) -> (r: i64)
        requires
            self.stats_ok(),
            log_parent < 32,
        ensures
            r == self.uct_key(log_parent as int, exploration as int),
            r >= -1,
            self.winner != Proven::Loss ==> r >= 0,
            self.winner != Proven::Win ==> r < SCORE_PROVEN_WIN,
    {
        match self.winner {
            Proven::Loss => -1,
            Proven::Win => SCORE_PROVEN_WIN,
            Proven::Unknown => {
                if self.visits == 0 {
                    if exploration > 0 {
                        SCORE_UNVISITED
                    } else {
                        0
                    }
                } else {
                    let v = self.visits as u64;
                    let num = if self.score >= self.visits as i64 {
                        2 * v
                    } else {
                        (self.score + self.visits as i64) as u64
                    };
                    assert(num * SCALE <= 2 * v * SCALE) by (nonlinear_arith)
                        requires
                            num <= 2 * v,
                    ;
                    let win = num * SCALE / (2 * v);
                    assert(win <= SCALE) by (nonlinear_arith)
                        requires
                            win == num * SCALE / (2 * v),
                            num <= 2 * v,
                            v > 0,
                    ;
                    let lp = log_parent as u64;
                    assert(2 * lp * SCALE * SCALE <= 64 * SCALE * SCALE) by (nonlinear_arith)
                        requires
                            lp < 32,
                    ;
                    let x = 2 * lp * SCALE * SCALE / v;
                    assert(x <= 2 * lp * SCALE * SCALE) by (nonlinear_arith)
                        requires
                            x == 2 * lp * SCALE * SCALE / (v as int),
                            v > 0,
                    ;
                    let s = isqrt(x);
                    assert(s < 0x8_0000) by (nonlinear_arith)
                        requires
                            s * s <= x,
                            x < 0x40_0000_0000,
                            s >= 0,
                    ;
                    assert(exploration as u64 * s <= 0xffff_ffff * 0x8_0000) by (nonlinear_arith)
                        requires
                            s < 0x8_0000,
                            exploration <= 0xffff_ffff,
                    ;
                    (1000 * win + exploration as u64 * s) as i64
                }
            },
        }
    }
}

/// A virtual loss followed by the settlement of a reward `r` adds one visit
/// and exactly `r` to the score.
pub proof fn lemma_virtual_loss_cancels(n: Node, r: i32)
    requires
        -1 <= r <= 1,
        n.stats_ok(),
        n.visits < u32::MAX,
        n.score < i64::MAX - 2,
    ensures
        n.virtual_loss().settled(r).visits == n.visits + 1,
        n.virtual_loss().settled(r).score == n.score + r,
        n.virtual_loss().settled(r).winner == n.winner,
{
}

/// Node `k` is met within the first `t` steps of following `moves`.
pub open spec fn on_path_upto(nodes: Seq<Node>, moves: Seq<Move>, t: int, k: int) -> bool {
    exists|t2: int| 0 <= t2 <= t && #[trigger] walk(nodes, moves.take(t2)) == Some(k)
}

/// Node `i` is consistent with the arena `nodes`.
pub open spec fn node_ok(nodes: Seq<Node>, i: int) -> bool {
    &&& nodes[i].stats_ok()
    &&& (i > 0 ==> nodes[i].m.is_some() && nodes[i].m.unwrap().valid())
    &&& (nodes[i].expansion.content().is_some() ==> i < nodes[i].expansion.content().unwrap().first
        && nodes[i].expansion.content().unwrap().first + nodes[i].expansion.content().unwrap().len
        <= nodes.len())
}

/// `b` grew from `a`: no node left, no move changed, no published children
/// moved.
pub open spec fn extends(a: Seq<Node>, b: Seq<Node>) -> bool {
    &&& a.len() <= b.len()
    &&& forall|i: int|
        #![trigger b[i]]
        0 <= i < a.len() ==> b[i].m == a[i].m && b[i].visits >= a[i].visits && (
        a[i].expansion.content().is_some() ==> b[i].expansion.content()
            == a[i].expansion.content())
}

/// `2^k`.
pub open spec fn two_to(k: nat) -> nat
    decreases k,
{
    if k == 0 {
        1
    } else {
        2 * two_to((k - 1) as nat)
    }
}

proof fn lemma_log2_below(n: nat, k: nat)
    requires
        k >= 1,
        n < two_to(k),
    ensures
        log2_floor(n) < k,
    decreases k,
{
    if n > 1 {
        assert(k >= 2) by {
            if k == 1 {
                assert(two_to(1) == 2) by {
                    reveal_with_fuel(two_to, 2);
                }
            }
        }
        lemma_log2_below(n / 2, (k - 1) as nat);
    }
}

/// The floor of log2 of a `u32` is below 32.
proof fn lemma_log2_u32(n: u32)
    ensures
        log2_floor(n as nat) < 32,
{
    assert(two_to(32) == 0x1_0000_0000) by {
        reveal_with_fuel(two_to, 33);
    }
    lemma_log2_below(n as nat, 32);
}

/// Growth composes.
pub proof fn lemma_extends_trans(a: Seq<Node>, b: Seq<Node>, c: Seq<Node>)
    requires
        extends(a, b),
        extends(b, c),
    ensures
        extends(a, c),
{
    assert forall|i: int| #![trigger c[i]] 0 <= i < a.len() implies c[i].m == a[i].m && c[i].visits >= a[i].visits && (
    a[i].expansion.content().is_some() ==> c[i].expansion.content() == a[i].expansion.content()) by {
        assert(b[i].m == a[i].m);
        assert(c[i].m == b[i].m);
    }
}

/// The first of `nodes[lo..hi]` reached by move `m`.
pub open spec fn first_match(nodes: Seq<Node>, lo: int, hi: int, m: Move) -> Option<int>
    decreases hi - lo,
{
    if lo >= hi {
        None
    } else if nodes[lo].m == Some(m) {
        Some(lo)
    } else {
        first_match(nodes, lo + 1, hi, m)
    }
}

/// The child of node `i` reached by move `m`, if `i` is expanded and has one.
pub open spec fn child_with(nodes: Seq<Node>, i: int, m: Move) -> Option<int> {
    match nodes[i].expansion.content() {
        Some(e) => first_match(nodes, e.first as int, e.first + e.len, m),
        None => None,
    }
}

/// The node reached from the root by following `moves`, if every step meets
/// an expanded node with a child for the move.
pub open spec fn walk(nodes: Seq<Node>, moves: Seq<Move>) -> Option<int>
    decreases moves.len(),
{
    if moves.len() == 0 {
        Some(0)
    } else {
        match walk(nodes, moves.drop_last()) {
            Some(i) => child_with(nodes, i, moves.last()),
            None => None,
        }
    }
}

/// Node `k` is met when following `moves` from the root.
pub open spec fn on_path(nodes: Seq<Node>, moves: Seq<Move>, k: int) -> bool {
    exists|t: int| 0 <= t <= moves.len() && #[trigger] walk(nodes, moves.take(t)) == Some(k)
}

proof fn lemma_first_match(a: Seq<Node>, b: Seq<Node>, lo: int, hi: int, m: Move)
    requires
        0 <= lo,
        hi <= a.len() <= b.len(),
        forall|i: int| #![trigger b[i]] 0 <= i < a.len() ==> b[i].m == a[i].m,
    ensures
        first_match(b, lo, hi, m) == first_match(a, lo, hi, m),
        first_match(a, lo, hi, m) matches Some(k) ==> lo <= k < hi && a[k].m == Some(m),
    decreases hi - lo,
{
    if lo < hi {
        assert(b[lo].m == a[lo].m);
        lemma_first_match(a, b, lo + 1, hi, m);
    }
}

/// A walk that succeeds in a tree succeeds, to the same node, in every tree
/// that grew from it.
pub proof fn lemma_walk_extends(a: Seq<Node>, b: Seq<Node>, moves: Seq<Move>)
    requires
        a.len() >= 1,
        forall|i: int| 0 <= i < a.len() ==> #[trigger] node_ok(a, i),
        extends(a, b),
        walk(a, moves).is_some(),
    ensures
        walk(b, moves) == walk(a, moves),
        0 <= walk(a, moves).unwrap() < a.len(),
    decreases moves.len(),
{
    if moves.len() > 0 {
        lemma_walk_extends(a, b, moves.drop_last());
        let i = walk(a, moves.drop_last()).unwrap();
        assert(node_ok(a, i));
        assert(b[i].m == a[i].m);
        let e = a[i].expansion.content().unwrap();
        lemma_first_match(a, b, e.first as int, e.first + e.len, moves.last());
    }
}

/// A walk that succeeds passes through every prefix, each step going to a
/// later node.
pub proof fn lemma_walk_prefix(a: Seq<Node>, moves: Seq<Move>, t: int)
    requires
        a.len() >= 1,
        forall|i: int| 0 <= i < a.len() ==> #[trigger] node_ok(a, i),
        walk(a, moves).is_some(),
        0 <= t <= moves.len(),
    ensures
        walk(a, moves.take(t)).is_some(),
        walk(a, moves.take(t)).unwrap() <= walk(a, moves).unwrap(),
        t < moves.len() ==> walk(a, moves.take(t)).unwrap() < walk(a, moves).unwrap(),
    decreases moves.len() - t,
{
    if t == moves.len() {
        assert(moves.take(t) =~= moves);
    } else {
        let ms = moves.drop_last();
        lemma_walk_prefix(a, ms, t);
        assert(ms.take(t) =~= moves.take(t));
        let i = walk(a, ms).unwrap();
        lemma_walk_extends(a, a, ms);
        assert(node_ok(a, i));
        let e = a[i].expansion.content().unwrap();
        lemma_first_match(a, a, e.first as int, e.first + e.len, moves.last());
    }
}

/// The children of node `i` are the free cells of its position, in order,
/// and a child's position is its parent's with the child's move played.
pub open spec fn position_ok(nodes: Seq<Node>, pos: Seq<Seq<Move>>, i: int) -> bool {
    &&& all_valid(pos[i])
    &&& (nodes[i].expansion.content().is_some() ==> {
        let e = nodes[i].expansion.content().unwrap();
        &&& free_cells(pos[i], moves_of(nodes.subrange(e.first as int, e.first + e.len)))
        &&& forall|j: int|
            e.first <= j < e.first + e.len ==> #[trigger] pos[j] == pos[i].push(nodes[j].m.unwrap())
    })
}

/// `position_ok` carries over to a tree with the same moves and, at `i`,
/// the same children.
proof fn lemma_position_kept(a: Seq<Node>, b: Seq<Node>, pa: Seq<Seq<Move>>, pb: Seq<Seq<Move>>, i: int)
    requires
        0 <= i < a.len() <= b.len(),
        a.len() <= pa.len(),
        position_ok(a, pa, i),
        node_ok(a, i),
        b[i].expansion.content() == a[i].expansion.content(),
        forall|k: int| #![trigger b[k]] #![trigger pb[k]] 0 <= k < a.len() ==> b[k].m == a[k].m && pb[k] == pa[k],
    ensures
        position_ok(b, pb, i),
{
    if a[i].expansion.content().is_some() {
        let e = a[i].expansion.content().unwrap();
        let sa = a.subrange(e.first as int, e.first + e.len);
        let sb = b.subrange(e.first as int, e.first + e.len);
        assert forall|q: int| 0 <= q < sa.len() implies moves_of(sb)[q] == moves_of(sa)[q] by {
            assert(e.first + e.len <= a.len());
            assert(sa[q] == a[e.first + q]);
            assert(sb[q] == b[e.first + q]);
            assert(b[e.first + q].m == a[e.first + q].m);
            assert(moves_of(sb)[q] == sb[q].m.unwrap());
            assert(moves_of(sa)[q] == sa[q].m.unwrap());
        }
        assert(moves_of(sb) =~= moves_of(sa));
        assert forall|j: int| e.first <= j < e.first + e.len implies #[trigger] pb[j] == pb[i].push(b[j].m.unwrap()) by {
            assert(pa[j] == pa[i].push(a[j].m.unwrap()));
        }
    }
}

pub struct Tree {
    pub nodes: Vec<Node>,
    /// The position of each node: the moves from the root to it.
    pub positions: Ghost<Seq<Seq<Move>>>,
}

impl Tree {
    /// A root, for the empty board, with every node consistent.
    pub open spec fn wf(&self) -> bool {
        &&& self.nodes@.len() >= 1
        &&& forall|i: int| 0 <= i < self.nodes@.len() ==> #[trigger] node_ok(self.nodes@, i)
        &&& self.positions@.len() == self.nodes@.len()
        &&& self.positions@[0] == Seq::<Move>::empty()
        &&& forall|i: int| 0 <= i < self.nodes@.len() ==> #[trigger] position_ok(self.nodes@, self.positions@, i)
    }

    /// A tree of a lone root with no children yet.
    pub fn new() -> (r: Self)
        ensures
            r.wf(),
            r.nodes@.len() == 1,
            r.nodes@[0].m.is_none(),
            r.nodes@[0].visits == 0,
            r.nodes@[0].score == 0,
            r.nodes@[0].winner == Proven::Unknown,
            r.nodes@[0].expansion.content().is_none(),
    {
        let mut nodes: Vec<Node> = Vec::new();
        nodes.push(Node::new(None));
        let ghost root_only = seq![Seq::<Move>::empty()];
        let tree = Tree { nodes, positions: Ghost(root_only) };
        assert(all_valid(tree.positions@[0]));
        tree
    }

    /// Applies a virtual loss to node `i`.
    pub fn pre_update(&mut self, i: usize)
        requires
            old(self).wf(),
            i < old(self).nodes@.len(),
        ensures
            final(self).wf(),
            final(self).nodes@ == old(self).nodes@.update(i as int, old(self).nodes@[i as int].virtual_loss()),
            final(self).positions == old(self).positions,
    {
        let mut n = self.nodes[i];
        assert(node_ok(self.nodes@, i as int));
        n.pre_update_stats();
        self.nodes.set(i, n);
        proof {
            assert forall|k: int| 0 <= k < self.nodes@.len() implies #[trigger] node_ok(self.nodes@, k) by {
                assert(node_ok(old(self).nodes@, k));
            }
            assert forall|k: int| 0 <= k < self.nodes@.len() implies #[trigger] position_ok(self.nodes@, self.positions@, k) by {
                assert(node_ok(old(self).nodes@, k));
                assert(position_ok(old(self).nodes@, old(self).positions@, k));
                lemma_position_kept(old(self).nodes@, self.nodes@, old(self).positions@, self.positions@, k);
            }
        }
    }

    /// Records `result` at node `i` and returns it.
    pub fn settle(&mut self, i: usize, result: i32) -> (r: i32)
        requires
            old(self).wf(),
            i < old(self).nodes@.len(),
            is_result(result),
        ensures
            final(self).wf(),
            final(self).nodes@ == old(self).nodes@.update(i as int, old(self).nodes@[i as int].settled(result)),
            final(self).positions == old(self).positions,
            r == result,
    {
        let mut n = self.nodes[i];
        let r = n.update_stats(result);
        self.nodes.set(i, n);
        proof {
            assert forall|k: int| 0 <= k < self.nodes@.len() implies #[trigger] node_ok(self.nodes@, k) by {
                assert(node_ok(old(self).nodes@, k));
            }
            assert forall|k: int| 0 <= k < self.nodes@.len() implies #[trigger] position_ok(self.nodes@, self.positions@, k) by {
                assert(node_ok(old(self).nodes@, k));
                assert(position_ok(old(self).nodes@, old(self).positions@, k));
                lemma_position_kept(old(self).nodes@, self.nodes@, old(self).positions@, self.positions@, k);
            }
        }
        r
    }

    /// Publishes `children` as the children of node `i` unless it has some
    /// already, in which case `children` are dropped. Returns where the
    /// children that stand stay.
    pub fn try_publish(&mut self, i: usize, children: Vec<Node>) -> (r: NodeExpansion)
        requires
            old(self).wf(),
            i < old(self).nodes@.len(),
            forall|k: int| 0 <= k < children@.len() ==> is_fresh(#[trigger] children@[k]),
            free_cells(old(self).positions@[i as int], moves_of(children@)),
        ensures
            final(self).wf(),
            extends(old(self).nodes@, final(self).nodes@),
            forall|k: int| 0 <= k < old(self).nodes@.len() ==> final(self).positions@[k] == old(self).positions@[k],
            final(self).nodes@[i as int].expansion.content() == Some(r),
            old(self).nodes@[i as int].expansion.content().is_some() ==> final(self).nodes@ == old(self).nodes@,
            old(self).nodes@[i as int].expansion.content().is_none() ==> {
                &&& r.first == old(self).nodes@.len()
                &&& r.len == children@.len()
                &&& final(self).nodes@.len() == old(self).nodes@.len() + children@.len()
                &&& final(self).nodes@.subrange(r.first as int, r.first + r.len) == children@
                &&& forall|k: int| 0 <= k < old(self).nodes@.len() && k != i ==> final(self).nodes@[k] == old(self).nodes@[k]
                &&& final(self).nodes@[i as int] == (Node { expansion: final(self).nodes@[i as int].expansion, ..old(self).nodes@[i as int] })
            },
    {
        let n = self.nodes[i];
        if let Some(e) = n.expansion.get() {
            return *e;
        }
        let first = self.nodes.len();
        let count = children.len();
        let mut k: usize = 0;
        while k < count
            invariant
                count == children@.len(),
                k <= count,
                first == old(self).nodes@.len(),
                self.nodes@.len() == first + k,
                self.nodes@.subrange(0, first as int) == old(self).nodes@,
                self.nodes@.subrange(first as int, first + k) == children@.subrange(0, k as int),
            decreases count - k,
        {
            self.nodes.push(children[k]);
            proof {
                assert(self.nodes@.subrange(0, first as int) =~= old(self).nodes@);
                assert(self.nodes@.subrange(first as int, first + k + 1) =~= children@.subrange(0, k + 1));
            }
            k += 1;
        }
        let e = NodeExpansion { first, len: count };
        let mut n2 = n;
        n2.expansion.try_set(e);
        let ghost appended = self.nodes@;
        self.nodes.set(i, n2);
        let ghost pi = old(self).positions@[i as int];
        self.positions = Ghost(old(self).positions@ + Seq::new(count as nat, |k: int| pi.push(children@[k].m.unwrap())));
        proof {
            assert(children@.subrange(0, count as int) =~= children@);
            assert(appended.subrange(first as int, first + count) =~= children@);
            assert(self.nodes@.subrange(first as int, first + count) =~= children@);
            assert forall|j: int| 0 <= j < self.nodes@.len() implies #[trigger] node_ok(self.nodes@, j) by {
                if j < first {
                    assert(old(self).nodes@[j] == appended.subrange(0, first as int)[j]);
                    assert(node_ok(old(self).nodes@, j));
                } else {
                    assert(self.nodes@[j] == appended.subrange(first as int, first + count)[j - first]);
                    assert(is_fresh(children@[j - first]));
                }
            }
            assert forall|j: int| 0 <= j < old(self).nodes@.len() && j != i implies self.nodes@[j] == old(self).nodes@[j] by {
                assert(old(self).nodes@[j] == appended.subrange(0, first as int)[j]);
            }
            let a = old(self).nodes@;
            let b = self.nodes@;
            let pa = old(self).positions@;
            let pb = self.positions@;
            assert forall|k: int| 0 <= k < a.len() implies b[k].m == a[k].m && pb[k] == pa[k] by {
                if k != i {
                    assert(a[k] == appended.subrange(0, first as int)[k]);
                }
            }
            assert forall|j: int| 0 <= j < b.len() implies #[trigger] position_ok(b, pb, j) by {
                if j < first && j != i {
                    assert(node_ok(a, j));
                    assert(position_ok(a, pa, j));
                    lemma_position_kept(a, b, pa, pb, j);
                } else if j == i {
                    assert(position_ok(a, pa, j));
                    assert(moves_of(b.subrange(first as int, first + count)) =~= moves_of(children@));
                    assert forall|c: int| first <= c < first + count implies #[trigger] pb[c] == pb[i as int].push(b[c].m.unwrap()) by {
                        assert(b[c] == children@[c - first]);
                    }
                } else {
                    assert(b[j] == children@[j - first]);
                    assert(is_fresh(children@[j - first]));
                    assert(pb[j] == pi.push(children@[j - first].m.unwrap()));
                    assert(position_ok(a, pa, i as int));
                    assert forall|q: int| 0 <= q < pb[j].len() implies (#[trigger] pb[j][q]).valid() by {
                        if q < pi.len() {
                            assert(pb[j][q] == pi[q]);
                        }
                    }
                }
            }
        }
        e
    }

    /// The child of node `i` reached by move `m`.
    pub fn find_child(&self, i: usize, m: Move) -> (r: Option<usize>)
        requires
            self.wf(),
            i < self.nodes@.len(),
        ensures
            match r {
                Some(k) => child_with(self.nodes@, i as int, m) == Some(k as int) && k < self.nodes@.len(),
                None => child_with(self.nodes@, i as int, m).is_none(),
            },
    {
        let n = self.nodes[i];
        let e = match n.expansion.get() {
            Some(e) => *e,
            None => return None,
        };
        assert(node_ok(self.nodes@, i as int));
        assert(n == self.nodes@[i as int]);
        assert(n.expansion.content() == Some(e));
        let total = self.nodes.len();
        let hi = e.first + e.len;
        assert(child_with(self.nodes@, i as int, m) == first_match(self.nodes@, e.first as int, hi as int, m));
        let mut k = e.first;
        while k < hi
            invariant
                self.wf(),
                e.first <= k <= hi,
                hi <= self.nodes@.len(),
                child_with(self.nodes@, i as int, m) == first_match(self.nodes@, k as int, hi as int, m),
            decreases hi - k,
        {
            if let Some(mk) = self.nodes[k].m {
                if mk == m {
                    assert(first_match(self.nodes@, k as int, hi as int, m) == Some(k as int));
                    return Some(k);
                }
            }
            k += 1;
        }
        None
    }

    /// The child of node `i` with the highest selection score (see
    /// [`Node::uct_score`]) under exploration weight `exploration / 1000`,
    /// chosen at random among equal scores; `None` if `i` has no children.
    pub fn best_child(&self, i: usize, exploration: u32) -> (r: Option<usize>)
        requires
            self.wf(),
            i < self.nodes@.len(),
        ensures
            match r {
                None => self.nodes@[i as int].expansion.content() matches Some(e) ==> e.len == 0,
                Some(k) => self.nodes@[i as int].expansion.content() matches Some(e) && {
                    let lp = log2_floor(self.nodes@[i as int].visits as nat) as int;
                    &&& e.first <= k < e.first + e.len
                    &&& forall|j: int|
                        e.first <= j < e.first + e.len ==> (#[trigger] self.nodes@[j]).uct_key(lp, exploration as int)
                            <= self.nodes@[k as int].uct_key(lp, exploration as int)
                    &&& self.nodes@[k as int].winner == Proven::Loss ==> forall|j: int|
                        e.first <= j < e.first + e.len ==> (#[trigger] self.nodes@[j]).winner == Proven::Loss
                    &&& (exists|j: int| e.first <= j < e.first + e.len && (#[trigger] self.nodes@[j]).winner == Proven::Win)
                        ==> self.nodes@[k as int].winner == Proven::Win
                },
            },
    {
        let parent = self.nodes[i];
        let e = match parent.expansion.get() {
            Some(e) => *e,
            None => return None,
        };
        assert(node_ok(self.nodes@, i as int));
        let total = self.nodes.len();
        proof {
            lemma_log2_u32(parent.visits);
        }
        let log_visits = ilog2(parent.visits);
        let ghost lp = log_visits as int;
        let mut scores: Vec<i64> = Vec::new();
        let mut k: usize = 0;
        while k < e.len
            invariant
                self.wf(),
                self.nodes@[i as int].expansion.content() == Some(e),
                e.first + e.len <= self.nodes@.len(),
                k <= e.len,
                log_visits < 32,
                lp == log_visits as int,
                total == self.nodes@.len(),
                scores@.len() == k,
                i < self.nodes@.len(),
                forall|j: int|
                    0 <= j < k ==> #[trigger] scores@[j] == self.nodes@[e.first + j].uct_key(lp, exploration as int),
                forall|j: int|
                    0 <= j < k ==> (self.nodes@[e.first + j].winner == Proven::Loss <==> #[trigger] scores@[j] < 0),
                forall|j: int|
                    0 <= j < k ==> (self.nodes@[e.first + j].winner == Proven::Win <==> #[trigger] scores@[j] == SCORE_PROVEN_WIN),
            decreases e.len - k,
        {
            assert(node_ok(self.nodes@, e.first + k));
            let child = self.nodes[e.first + k];
            let sc = child.uct_score(exploration, log_visits);
            scores.push(sc);
            assert(child == self.nodes@[e.first + k]);
            assert(scores@[k as int] == sc);
            k += 1;
        }
        let best = match random_best(scores.as_slice()) {
            Some(b) => b,
            None => return None,
        };
        let r = e.first + best;
        proof {
            assert forall|j: int| e.first <= j < e.first + e.len implies
                (#[trigger] self.nodes@[j]).uct_key(lp, exploration as int)
                    <= self.nodes@[r as int].uct_key(lp, exploration as int) by {
                assert(self.nodes@[e.first + (j - e.first)] == self.nodes@[j]);
                assert(scores@[j - e.first] <= scores@[best as int]);
            }
            assert(self.nodes@[e.first + best] == self.nodes@[r as int]);
            assert(scores@[best as int] == self.nodes@[r as int].uct_key(lp, exploration as int));
            if self.nodes@[r as int].winner == Proven::Loss {
                assert forall|j: int| e.first <= j < e.first + e.len implies (#[trigger] self.nodes@[j]).winner
                    == Proven::Loss by {
                    assert(self.nodes@[e.first + (j - e.first)] == self.nodes@[j]);
                    assert(scores@[j - e.first] <= scores@[best as int]);
                }
            }
            if exists|j: int| e.first <= j < e.first + e.len && (#[trigger] self.nodes@[j]).winner == Proven::Win {
                let j = choose|j: int| e.first <= j < e.first + e.len && (#[trigger] self.nodes@[j]).winner == Proven::Win;
                assert(self.nodes@[e.first + (j - e.first)] == self.nodes@[j]);
                assert(scores@[j - e.first] <= scores@[best as int]);
            }
        }
        Some(r)
    }

    /// Counts one more simulation with result `reward` at every node met when
    /// following `moves` from the root: a virtual loss, then its settlement.
    pub fn propagate_reward(&mut self, reward: i32, moves: &[Move])
        requires
            old(self).wf(),
            is_result(reward),
            walk(old(self).nodes@, moves@).is_some(),
        ensures
            final(self).wf(),
            final(self).nodes@.len() == old(self).nodes@.len(),
            forall|k: int|
                0 <= k < old(self).nodes@.len() ==> #[trigger] final(self).nodes@[k] == if on_path(
                    old(self).nodes@,
                    moves@,
                    k,
                ) {
                    old(self).nodes@[k].virtual_loss().settled(reward)
                } else {
                    old(self).nodes@[k]
                },
    {
        let ghost old_nodes = self.nodes@;
        proof {
            assert(moves@.take(0) =~= Seq::<Move>::empty());
            assert(walk(old_nodes, moves@.take(0)) == Some(0int));
        }
        self.pre_update(0);
        self.settle(0, reward);
        let mut res: usize = 0;
        let mut t: usize = 0;
        while t < moves.len()
            invariant
                self.wf(),
                self.nodes@.len() == old_nodes.len(),
                extends(old_nodes, self.nodes@),
                forall|k: int| 0 <= k < old_nodes.len() ==> #[trigger] node_ok(old_nodes, k),
                old_nodes.len() >= 1,
                is_result(reward),
                walk(old_nodes, moves@).is_some(),
                t <= moves@.len(),
                res < self.nodes@.len(),
                walk(old_nodes, moves@.take(t as int)) == Some(res as int),
                forall|t2: int| 0 <= t2 <= t ==> (#[trigger] walk(old_nodes, moves@.take(t2))).unwrap() <= res,
                forall|k: int|
                    0 <= k < old_nodes.len() ==> #[trigger] self.nodes@[k] == if on_path_upto(old_nodes, moves@, t as int, k) {
                        old_nodes[k].virtual_loss().settled(reward)
                    } else {
                        old_nodes[k]
                    },
            decreases moves@.len() - t,
        {
            proof {
                lemma_walk_prefix(old_nodes, moves@, t + 1);
                let pre = moves@.take(t + 1);
                assert(pre.drop_last() =~= moves@.take(t as int));
                assert(pre.take(t as int) =~= moves@.take(t as int));
                lemma_walk_prefix(old_nodes, pre, t as int);
                lemma_walk_extends(old_nodes, self.nodes@, pre);
                lemma_walk_extends(old_nodes, self.nodes@, moves@.take(t as int));
            }
            let next = match self.find_child(res, moves[t]) {
                Some(k) => k,
                None => {
                    proof {
                        assert(false);
                    }
                    return ;
                },
            };
            let ghost before = self.nodes@;
            proof {
                assert(walk(old_nodes, moves@.take(t + 1)) == Some(next as int));
                assert(!on_path_upto(old_nodes, moves@, t as int, next as int));
                assert(before[next as int] == old_nodes[next as int]);
            }
            self.pre_update(next);
            self.settle(next, reward);
            proof {
                assert forall|k: int| 0 <= k < old_nodes.len() implies #[trigger] self.nodes@[k] == if on_path_upto(
                    old_nodes,
                    moves@,
                    t + 1,
                    k,
                ) {
                    old_nodes[k].virtual_loss().settled(reward)
                } else {
                    old_nodes[k]
                } by {
                    if k != next {
                        if on_path_upto(old_nodes, moves@, t + 1, k) {
                            let t2 = choose|t2: int| 0 <= t2 <= t + 1 && #[trigger] walk(old_nodes, moves@.take(t2)) == Some(k);
                            assert(t2 != t + 1);
                            assert(on_path_upto(old_nodes, moves@, t as int, k));
                        }
                        if on_path_upto(old_nodes, moves@, t as int, k) {
                            let t2 = choose|t2: int| 0 <= t2 <= t && #[trigger] walk(old_nodes, moves@.take(t2)) == Some(k);
                            assert(on_path_upto(old_nodes, moves@, t + 1, k));
                        }
                    } else {
                        assert(on_path_upto(old_nodes, moves@, t + 1, k));
                    }
                }
                assert forall|t2: int| 0 <= t2 <= t + 1 implies (#[trigger] walk(old_nodes, moves@.take(t2))).unwrap() <= next by {
                    if t2 <= t {
                        assert(walk(old_nodes, moves@.take(t2)).unwrap() <= res);
                    }
                }
            }
            res = next;
            t += 1;
        }
        proof {
            assert(moves@.take(moves@.len() as int) =~= moves@);
            assert forall|k: int| 0 <= k < old_nodes.len() implies on_path_upto(old_nodes, moves@, moves@.len() as int, k) == on_path(old_nodes, moves@, k) by {
                if on_path(old_nodes, moves@, k) {
                    let t2 = choose|t2: int| 0 <= t2 <= moves@.len() && #[trigger] walk(old_nodes, moves@.take(t2)) == Some(k);
                    assert(on_path_upto(old_nodes, moves@, moves@.len() as int, k));
                }
            }
        }
    }

    /// Whether every child in `e` is a proven loss.
    pub fn all_children_lost(&self, e: NodeExpansion) -> (r: bool)
        requires
            e.first + e.len <= self.nodes@.len(),
        ensures
            r == forall|j: int| e.first <= j < e.first + e.len ==> (#[trigger] self.nodes@[j]).winner == Proven::Loss,
    {
        let total = self.nodes.len();
        let mut k = e.first;
        let hi = e.first + e.len;
        while k < hi
            invariant
                e.first <= k <= hi,
                hi == e.first + e.len,
                hi <= self.nodes@.len(),
                forall|j: int| e.first <= j < k ==> (#[trigger] self.nodes@[j]).winner == Proven::Loss,
            decreases hi - k,
        {
            if self.nodes[k].winner != Proven::Loss {
                return false;
            }
            k += 1;
        }
        true
    }

    /// The node reached from the root by following `moves`.
    pub fn get_to_node(&self, moves: &[Move]) -> (r: Option<usize>)
        requires
            self.wf(),
        ensures
            match r {
                Some(k) => walk(self.nodes@, moves@) == Some(k as int) && k < self.nodes@.len()
                    && self.positions@[k as int] == moves@,
                None => walk(self.nodes@, moves@).is_none(),
            },
    {
        let mut res: usize = 0;
        let mut t: usize = 0;
        assert(moves@.take(0) =~= Seq::<Move>::empty());
        while t < moves.len()
            invariant
                self.wf(),
                t <= moves@.len(),
                res < self.nodes@.len(),
                walk(self.nodes@, moves@.take(t as int)) == Some(res as int),
                self.positions@[res as int] == moves@.take(t as int),
            decreases moves@.len() - t,
        {
            assert(moves@.take(t + 1).drop_last() =~= moves@.take(t as int));
            match self.find_child(res, moves[t]) {
                Some(k) => {
                    proof {
                        assert(node_ok(self.nodes@, res as int));
                        assert(position_ok(self.nodes@, self.positions@, res as int));
                        let e = self.nodes@[res as int].expansion.content().unwrap();
                        lemma_first_match(self.nodes@, self.nodes@, e.first as int, e.first + e.len, moves@[t as int]);
                        assert(moves@.take(t + 1) =~= moves@.take(t as int).push(moves@[t as int]));
                    }
                    res = k;
                },
                None => {
                    proof {
                        if walk(self.nodes@, moves@).is_some() {
                            lemma_walk_prefix(self.nodes@, moves@, t + 1);
                        }
                    }
                    return None;
                },
            }
            t += 1;
        }
        assert(moves@.take(moves@.len() as int) =~= moves@);
        Some(res)
    }
}

/// Fresh children for each legal move of `state`, in the rules' order.
pub fn new_expansion(state: &State) -> (r: Vec<Node>)
    requires
        Gomoku::valid_state(*state),
    ensures
        forall|k: int| 0 <= k < r@.len() ==> is_fresh(#[trigger] r@[k]),
        free_cells(state.pieces@, moves_of(r@)),
{
    let mut moves: Vec<Move> = Vec::new();
    Gomoku::generate_moves(state, &mut moves);
    let mut children: Vec<Node> = Vec::new();
    let mut k: usize = 0;
    while k < moves.len()
        invariant
            k <= moves@.len(),
            free_cells(state.pieces@, moves@),
            children@.len() == k,
            forall|j: int| 0 <= j < k ==> is_fresh(#[trigger] children@[j]) && children@[j].m == Some(moves@[j]),
        decreases moves@.len() - k,
    {
        children.push(Node::new(Some(moves[k])));
        k += 1;
    }
    assert(moves_of(children@) =~= moves@);
    children
}

} // verus!
