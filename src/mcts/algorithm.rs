//! The search driver: options, the engine state and one simulation.
use super::node::{
    extends, is_fresh, position_ok, Node, on_path, lemma_walk_prefix, is_result, lemma_extends_trans, lemma_walk_extends, moves_of, new_expansion, node_ok,
    sentinel_of, walk, NodeExpansion, Proven, Tree, LOSS, WIN,
};
use super::rollout_policy::{first_terminal_value, is_playout, no_win_in_one, playout_value, RolloutPolicy};
use crate::gomoku::{all_valid, free_cells, marked, gomoku_outcome, Gomoku, Move, State, CELLS};
use crate::interface::{Game, Winner};
use std::time::Duration;
use vstd::prelude::*;

verus! {

/// Relies on `Duration::from_secs` for the default decision time; nothing is
/// assumed of the value.
pub assume_specification[ core::time::Duration::from_secs ](secs: u64) -> core::time::Duration;

/// Relies on `num_cpus::get`: the number of logical CPUs this process may use,
/// which its documentation promises is at least one.
#[verifier::external_body]
fn logical_cpus() -> (r: usize)
    ensures
        r >= 1,
{
    num_cpus::get()
}

/// Options of the search.
#[derive(Clone, Debug)]
pub struct MCTSOptions {
    /// Report statistics after each decision.
    pub verbose: bool,
    /// Playouts stop, as a draw, after this many moves.
    pub max_rollout_depth: u32,
    /// Simulations that end at a leaf by a direct playout before the leaf's
    /// children are made.
    pub rollouts_before_expanding: u32,
    /// Worker threads; `None` means one per logical CPU.
    pub num_threads: Option<usize>,
}

impl Default for MCTSOptions {
    fn default() -> (r: Self)
        ensures
            r == (MCTSOptions {
                verbose: false,
                max_rollout_depth: 100,
                rollouts_before_expanding: 5,
                num_threads: None,
            }),
    {
        MCTSOptions {
            verbose: false,
            max_rollout_depth: 100,
            rollouts_before_expanding: 5,
            num_threads: None,
        }
    }
}

impl MCTSOptions {
    /// Enables statistics after each search.
    pub fn verbose(self) -> (r: Self)
        ensures
            r == (MCTSOptions { verbose: true, ..self }),
    {
        MCTSOptions { verbose: true, ..self }
    }

    /// Sets the maximum playout length; longer playouts count as draws.
    pub fn with_max_rollout_depth(self, depth: u32) -> (r: Self)
        ensures
            r == (MCTSOptions { max_rollout_depth: depth, ..self }),
    {
        MCTSOptions { max_rollout_depth: depth, ..self }
    }

    /// Sets how many playouts run on a leaf before its children are made.
    pub fn with_rollouts_before_expanding(self, rollouts: u32) -> (r: Self)
        ensures
            r == (MCTSOptions { rollouts_before_expanding: rollouts, ..self }),
    {
        MCTSOptions { rollouts_before_expanding: rollouts, ..self }
    }

    /// Sets the number of worker threads.
    pub fn with_num_threads(self, threads: usize) -> (r: Self)
        ensures
            r == (MCTSOptions { num_threads: Some(threads), ..self }),
    {
        MCTSOptions { num_threads: Some(threads), ..self }
    }

    /// The number of worker threads to start: the one set, else the number
    /// of logical CPUs.
    pub fn thread_count(&self) -> (r: usize)
        ensures
            self.num_threads matches Some(n) ==> r == n,
            self.num_threads.is_none() ==> r >= 1,
    {
        match self.num_threads {
            Some(n) => n,
            None => logical_cpus(),
        }
    }
}

/// `nodes[k]` has the most visits of `nodes[lo..hi]`, and is the first such.
pub open spec fn first_most_visited(nodes: Seq<crate::mcts::node::Node>, lo: int, hi: int, k: int) -> bool {
    &&& lo <= k < hi
    &&& forall|j: int| lo <= j < hi ==> (#[trigger] nodes[j]).visits <= nodes[k].visits
    &&& forall|j: int| lo <= j < k ==> (#[trigger] nodes[j]).visits < nodes[k].visits
}

/// The result of a node whose chosen child returned `cr`.
pub open spec fn backed_up(cr: i32, all_children_lost: bool) -> i32 {
    if cr == WIN {
        LOSS
    } else if cr == LOSS {
        if all_children_lost {
            WIN
        } else {
            -1i32
        }
    } else {
        (-cr) as i32
    }
}

/// Every child in `e` of `nodes` is a proven loss.
pub open spec fn all_lost(nodes: Seq<Node>, e: NodeExpansion) -> bool {
    forall|j: int| e.first <= j < e.first + e.len ==> (#[trigger] nodes[j]).winner == Proven::Loss
}

/// How a simulation through a node with children `e` ended, from tree `a` to
/// tree `b`: with no child to go to (or a full board) as a draw, else through
/// a child `c` whose result `cr` gives `r` by [`backed_up`]. When the
/// children were made by this simulation, `c` is the one child visited.
pub open spec fn descended(a: Seq<Node>, b: Seq<Node>, s: Seq<Move>, e: NodeExpansion, r: i32) -> bool {
    ||| (e.len == 0 || s.len() >= 225) && r == 0
    ||| exists|c: int, cr: i32|
        #![trigger b[c], backed_up(cr, all_lost(b, e))]
        {
            &&& e.first <= c < e.first + e.len
            &&& is_result(cr)
            &&& r == backed_up(cr, all_lost(b, e))
            &&& (cr == WIN ==> b[c].winner == Proven::Win)
            &&& (cr == LOSS ==> b[c].winner == Proven::Loss)
            &&& (e.first >= a.len() ==> b[c].visits == 1 && forall|j: int|
                e.first <= j < e.first + e.len && j != c ==> (#[trigger] b[j]).visits == 0)
        }
}

/// The move played on an empty board.
pub open spec fn centre_move() -> Move {
    Move(112)
}

/// A search tree that persists across decisions, with the position that
/// simulations start from.
pub struct MonteCarloTreeSearchContinue {
    pub tree: Tree,
    pub cur_state: State,
    pub options: MCTSOptions,
    pub time_out: Duration,
}

impl MonteCarloTreeSearchContinue {
    /// The tree is consistent and the current position holds cells only.
    pub open spec fn wf(&self) -> bool {
        self.tree.wf() && all_valid(self.cur_state.pieces@)
    }

    /// An engine at the empty board, whose root has a child for each cell,
    /// with a decision time of five seconds.
    pub fn new(options: MCTSOptions) -> (r: Self)
        ensures
            r.wf(),
            r.options == options,
            r.cur_state.pieces@.len() == 0,
            r.tree.nodes@[0].m.is_none(),
            r.tree.nodes@[0].visits == 0,
            r.tree.nodes@[0].score == 0,
            r.tree.nodes@[0].winner == Proven::Unknown,
            r.tree.nodes@[0].expansion.content() matches Some(e) && e.first == 1 && free_cells(
                Seq::empty(),
                moves_of(r.tree.nodes@.subrange(1, 1 + e.len)),
            ) && r.tree.nodes@.len() == 1 + e.len && forall|j: int|
                1 <= j < 1 + e.len ==> is_fresh(#[trigger] r.tree.nodes@[j]),
    {
        let cur_state = State::default();
        let mut tree = Tree::new();
        let children = new_expansion(&cur_state);
        assert(cur_state.pieces@ =~= Seq::<Move>::empty());
        let e = tree.try_publish(0, children);
        proof {
            assert forall|j: int| 1 <= j < 1 + e.len implies is_fresh(#[trigger] tree.nodes@[j]) by {
                assert(tree.nodes@[j] == tree.nodes@.subrange(1, 1 + e.len)[j - 1]);
            }
        }
        Self { tree, cur_state, options, time_out: Duration::from_secs(5) }
    }

    /// Makes `state` the position that simulations start from.
    pub fn change_cur_state(&mut self, state: &State)
        requires
            old(self).wf(),
            all_valid(state.pieces@),
        ensures
            final(self).wf(),
            final(self).cur_state.pieces@ == state.pieces@,
            final(self).tree == old(self).tree,
            final(self).options == old(self).options,
            final(self).time_out == old(self).time_out,
    {
        self.cur_state = state.clone();
    }

    /// Sets how long a decision waits for the workers.
    pub fn set_timeout(&mut self, timeout: Duration)
        ensures
            final(self).time_out == timeout,
            final(self).tree == old(self).tree,
            final(self).cur_state == old(self).cur_state,
            final(self).options == old(self).options,
    {
        self.time_out = timeout;
    }

    /// Makes `state` current and answers at once where no search is needed:
    /// the centre on an empty board, else `None`.
    pub fn immediate_move(&mut self, state: &State) -> (r: Option<Move>)
        requires
            old(self).wf(),
            all_valid(state.pieces@),
        ensures
            final(self).wf(),
            final(self).cur_state.pieces@ == state.pieces@,
            final(self).tree == old(self).tree,
            r == if state.pieces@.len() == 0 {
                Some(centre_move())
            } else {
                None
            },
    {
        self.change_cur_state(state);
        if self.cur_state.pieces.len() == 0 {
            return Some(Move::new(7, 7));
        }
        None
    }

    /// Makes `state` current and decides from what the search has gathered:
    /// the centre on an empty board, else the move of the most visited child
    /// of the node of `state` (the first among equals), which is a free cell
    /// of `state`. `None` if `state` cannot be followed in the tree or its
    /// node has no children.
    pub fn choose_move(&mut self, state: &State) -> (r: Option<Move>)
        requires
            old(self).wf(),
            all_valid(state.pieces@),
        ensures
            final(self).wf(),
            final(self).cur_state.pieces@ == state.pieces@,
            final(self).tree == old(self).tree,
            state.pieces@.len() == 0 ==> r == Some(centre_move()),
            state.pieces@.len() > 0 && walk(old(self).tree.nodes@, state.pieces@).is_none() ==> r.is_none(),
            state.pieces@.len() > 0 ==> (r matches Some(m) ==> m.valid() && !marked(state.pieces@, m.0 as int, false)
                && {
                let n = walk(old(self).tree.nodes@, state.pieces@).unwrap();
                old(self).tree.nodes@[n].expansion.content() matches Some(e) && exists|k: int|
                    #[trigger] first_most_visited(old(self).tree.nodes@, e.first as int, e.first + e.len, k)
                        && old(self).tree.nodes@[k].m == Some(m)
            }),
    {
        if let Some(m) = self.immediate_move(state) {
            return Some(m);
        }
        let node = match self.tree.get_to_node(state.pieces.as_slice()) {
            Some(n) => n,
            None => return None,
        };
        self.most_visited_child(node)
    }

    /// The move of the most visited child of `node`, the first one among
    /// equals; `None` if `node` has no children.
    pub fn most_visited_child(&self, node: usize) -> (r: Option<Move>)
        requires
            self.wf(),
            node < self.tree.nodes@.len(),
        ensures
            match r {
                None => self.tree.nodes@[node as int].expansion.content() matches Some(e) ==> e.len == 0,
                Some(m) => self.tree.nodes@[node as int].expansion.content() matches Some(e) && exists|k: int|
                    #[trigger] first_most_visited(self.tree.nodes@, e.first as int, e.first + e.len, k)
                        && self.tree.nodes@[k].m == Some(m),
            },
            r matches Some(m) ==> m.valid() && !marked(self.tree.positions@[node as int], m.0 as int, false),
    {
        let parent = self.tree.nodes[node];
        let e = match parent.expansion.get() {
            Some(e) => *e,
            None => return None,
        };
        assert(node_ok(self.tree.nodes@, node as int));
        let total = self.tree.nodes.len();
        if e.len == 0 {
            return None;
        }
        let mut best = e.first;
        let mut k = e.first + 1;
        let hi = e.first + e.len;
        while k < hi
            invariant
                total == self.tree.nodes@.len(),
                hi == e.first + e.len,
                hi <= total,
                e.first < k <= hi,
                e.first <= best < k,
                forall|j: int| e.first <= j < k ==> (#[trigger] self.tree.nodes@[j]).visits <= self.tree.nodes@[best as int].visits,
                forall|j: int| e.first <= j < best ==> (#[trigger] self.tree.nodes@[j]).visits < self.tree.nodes@[best as int].visits,
            decreases hi - k,
        {
            if self.tree.nodes[k].visits > self.tree.nodes[best].visits {
                best = k;
            }
            k += 1;
        }
        let r = self.tree.nodes[best].m;
        proof {
            assert(node_ok(self.tree.nodes@, best as int));
            assert(r.is_some());
            assert(first_most_visited(self.tree.nodes@, e.first as int, e.first + e.len, best as int));
            assert(position_ok(self.tree.nodes@, self.tree.positions@, node as int));
            let sub = self.tree.nodes@.subrange(e.first as int, e.first + e.len);
            assert(sub[best - e.first] == self.tree.nodes@[best as int]);
            assert(moves_of(sub)[best - e.first] == r.unwrap());
        }
        r
    }

    /// A weighted random playout from `state`; see [`RolloutPolicy::rollout`].
    pub fn rollout(options: &MCTSOptions, state: &State) -> (r: i32)
        requires
            all_valid(state.pieces@),
        ensures
            is_result(r),
            gomoku_outcome(state.pieces@) matches Some(w) ==> r == first_terminal_value(w),
            gomoku_outcome(state.pieces@).is_none() ==> -1 <= r <= 1,
            gomoku_outcome(state.pieces@).is_none() && options.max_rollout_depth == 0 ==> r == 0,
            gomoku_outcome(state.pieces@).is_none() && options.max_rollout_depth == 1 && no_win_in_one(
                state.pieces@,
            ) ==> r == 0,
            gomoku_outcome(state.pieces@).is_none() ==> exists|ms: Seq<Move>|
                is_playout(state.pieces@, ms, options.max_rollout_depth as int) && r == playout_value(
                    state.pieces@,
                    ms,
                ),
    {
        RolloutPolicy::rollout(options, state)
    }

    /// The result of a node from the result `cr` of the child it went
    /// through: a proven-won child makes a proven loss, a proven-lost child
    /// makes a proven win if all children are proven lost and -1 otherwise,
    /// and a reward changes sign.
    pub fn backed_up_result(cr: i32, all_children_lost: bool) -> (r: i32)
        requires
            is_result(cr),
        ensures
            r == backed_up(cr, all_children_lost),
            is_result(r),
    {
        if cr == WIN {
            LOSS
        } else if cr == LOSS {
            if all_children_lost {
                WIN
            } else {
                -1
            }
        } else {
            -cr
        }
    }

    /// One selection, expansion, playout and backup from `node`, whose
    /// position is `state`. `state` is restored before returning. The
    /// result is seen by the player who made `node`'s move: a proven
    /// sentinel, or a reward in -1..=1.
    #[verifier::rlimit(60)]
    pub fn simulate_once(
        options: &MCTSOptions,
        tree: &mut Tree,
        node: usize,
        state: &mut State,
        force_rollout: bool,
    ) -> (r: i32)
        requires
            old(tree).wf(),
            node < old(tree).nodes@.len(),
            all_valid(old(state).pieces@),
            old(state).pieces@.len() <= 225,
            old(state).pieces@ == old(tree).positions@[node as int],
        ensures
            final(tree).wf(),
            extends(old(tree).nodes@, final(tree).nodes@),
            forall|k: int| 0 <= k < old(tree).nodes@.len() ==> final(tree).positions@[k] == old(tree).positions@[k],
            final(state).pieces@ == old(state).pieces@,
            is_result(r),
            forall|i: int| 0 <= i < node ==> final(tree).nodes@[i] == old(tree).nodes@[i],
            old(tree).nodes@[node as int].winner != Proven::Unknown ==> r == sentinel_of(
                old(tree).nodes@[node as int].winner,
            ) && final(tree).nodes@ == old(tree).nodes@,
            old(tree).nodes@[node as int].winner == Proven::Unknown ==> final(tree).nodes@[node as int]
                == (Node {
                expansion: final(tree).nodes@[node as int].expansion,
                ..old(tree).nodes@[node as int].virtual_loss().settled(r)
            }),
            r == WIN ==> final(tree).nodes@[node as int].winner == Proven::Win,
            r == LOSS ==> final(tree).nodes@[node as int].winner == Proven::Loss,
            old(tree).nodes@[node as int].winner == Proven::Unknown && force_rollout ==> {
                &&& final(tree).nodes@.len() == old(tree).nodes@.len()
                &&& forall|i: int| 0 <= i < old(tree).nodes@.len() && i != node ==> final(tree).nodes@[i] == old(tree).nodes@[i]
            },
            old(tree).nodes@[node as int].winner == Proven::Unknown && old(tree).nodes@[node as int].expansion.content().is_none()
                ==> (gomoku_outcome(old(state).pieces@) matches Some(w) ==> r == first_terminal_value(w)),
            old(tree).nodes@[node as int].winner == Proven::Unknown && old(tree).nodes@[node as int].expansion.content().is_none()
                && (force_rollout || old(tree).nodes@[node as int].virtual_loss().visits <= options.rollouts_before_expanding
                || gomoku_outcome(old(state).pieces@).is_some())
                ==> final(tree).nodes@[node as int].expansion.content().is_none(),
            old(tree).nodes@[node as int].winner == Proven::Unknown && old(tree).nodes@[node as int].expansion.content().is_none()
                && !force_rollout && gomoku_outcome(old(state).pieces@).is_none()
                && old(tree).nodes@[node as int].virtual_loss().visits > options.rollouts_before_expanding
                ==> (final(tree).nodes@[node as int].expansion.content() matches Some(e) && free_cells(
                old(state).pieces@,
                moves_of(final(tree).nodes@.subrange(e.first as int, e.first + e.len)),
            )),
            old(tree).nodes@[node as int].winner == Proven::Unknown && !force_rollout && (
            old(tree).nodes@[node as int].expansion.content().is_some() || (gomoku_outcome(
                old(state).pieces@,
            ).is_none() && old(tree).nodes@[node as int].virtual_loss().visits
                > options.rollouts_before_expanding)) ==> (final(tree).nodes@[node as int].expansion.content() matches Some(e)
                && descended(old(tree).nodes@, final(tree).nodes@, old(state).pieces@, e, r)),
        decreases 225 - old(state).pieces@.len(),
    {
        let winner = tree.nodes[node].winner;
        if winner == Proven::Win {
            return WIN;
        } else if winner == Proven::Loss {
            return LOSS;
        }
        tree.pre_update(node);
        if force_rollout {
            let r = Self::rollout(options, state);
            return tree.settle(node, r);
        }
        let mut force = false;
        let ghost start = tree.nodes@;
        let expansion: NodeExpansion = match tree.nodes[node].expansion.get() {
            Some(e) => *e,
            None => {
                // A leaf: play out directly until it has been visited enough.
                if tree.nodes[node].visits <= options.rollouts_before_expanding {
                    let r = Self::rollout(options, state);
                    return tree.settle(node, r);
                }
                match Gomoku::get_winner(state) {
                    Some(Winner::PlayerJustMoved) => return tree.settle(node, WIN),
                    Some(Winner::PlayerToMove) => return tree.settle(node, LOSS),
                    Some(Winner::Draw) => return tree.settle(node, 0),
                    None => {},
                }
                // Expand, and play out from the chosen child.
                force = true;
                let children = new_expansion(state);
                let e = tree.try_publish(node, children);
                proof {
                    assert(moves_of(tree.nodes@.subrange(e.first as int, e.first + e.len)) =~= moves_of(children@));
                    assert forall|j: int| e.first <= j < e.first + e.len implies (#[trigger] tree.nodes@[j]).visits == 0 by {
                        assert(tree.nodes@[j] == tree.nodes@.subrange(e.first as int, e.first + e.len)[j - e.first]);
                        assert(is_fresh(children@[j - e.first]));
                    }
                }
                e
            },
        };
        let ghost published = tree.nodes@;
        proof {
            assert(node_ok(tree.nodes@, node as int));
        }
        let next = match tree.best_child(node, 1000) {
            Some(c) => c,
            // No children: counted as a draw.
            None => return tree.settle(node, 0),
        };
        // A full board has no children; this only guards against a tree that
        // does not match the position, counted as a draw.
        if state.pieces.len() >= CELLS {
            return tree.settle(node, 0);
        }
        proof {
            assert(node_ok(tree.nodes@, next as int));
            assert(position_ok(tree.nodes@, tree.positions@, node as int));
        }
        let m = tree.nodes[next].m.unwrap();
        let ghost mid = tree.nodes@;
        let ghost before = state.pieces@;
        Gomoku::apply(state, &m);
        proof {
            assert forall|j: int| 0 <= j < state.pieces@.len() implies (#[trigger] state.pieces@[j]).valid() by {
                if j < before.len() {
                    assert(state.pieces@[j] == before[j]);
                }
            }
        }
        let child_result = Self::simulate_once(options, tree, next, state, force);
        Gomoku::undo(state, &m);
        proof {
            assert(state.pieces@ =~= state.pieces@.push(m).drop_last());
            assert(before =~= before.push(m).drop_last());
            lemma_extends_trans(old(tree).nodes@, mid, tree.nodes@);
            assert(tree.nodes@[node as int] == mid[node as int]);
            assert(tree.nodes@[node as int].expansion.content() == Some(expansion));
            assert(node_ok(tree.nodes@, node as int));
        }
        let lost = tree.all_children_lost(expansion);
        let result = Self::backed_up_result(child_result, lost);
        let ghost last = tree.nodes@;
        let r = tree.settle(node, result);
        proof {
            lemma_extends_trans(old(tree).nodes@, mid, tree.nodes@);
            assert(extends(last, tree.nodes@));
            lemma_extends_trans(mid, last, tree.nodes@);
            lemma_extends_trans(published, mid, tree.nodes@);
            assert(node_ok(published, node as int));
            assert(moves_of(tree.nodes@.subrange(expansion.first as int, expansion.first + expansion.len))
                =~= moves_of(published.subrange(expansion.first as int, expansion.first + expansion.len)));
            assert(all_lost(tree.nodes@, expansion) == all_lost(last, expansion)) by {
                assert forall|j: int| expansion.first <= j < expansion.first + expansion.len implies tree.nodes@[j] == last[j] by {
                }
            }
            assert(tree.nodes@[next as int] == last[next as int]);
            if old(tree).nodes@[node as int].expansion.content().is_none() {
                assert forall|j: int|
                    expansion.first <= j < expansion.first + expansion.len && j != next implies (#[trigger] tree.nodes@[j]).visits
                        == 0 by {
                    assert(published[j].visits == 0);
                    assert(mid[j] == published[j]);
                }
            }
            let b = tree.nodes@;
            let c = next as int;
            assert(expansion.first <= c < expansion.first + expansion.len);
            assert(r == backed_up(child_result, all_lost(b, expansion)));
            assert(child_result == WIN ==> b[c].winner == Proven::Win);
            assert(child_result == LOSS ==> b[c].winner == Proven::Loss);
            if expansion.first >= old(tree).nodes@.len() {
                assert(old(tree).nodes@[node as int].expansion.content().is_none());
                assert(published[c].visits == 0);
                assert(published[c].winner == Proven::Unknown) by {
                    assert(published[c] == published.subrange(expansion.first as int, expansion.first + expansion.len)[c - expansion.first]);
                }
                assert(b[c].visits == 1);
            }
            assert(descended(old(tree).nodes@, tree.nodes@, old(state).pieces@, expansion, r));
        }
        r
    }

    /// One pass of a worker: a simulation from the node of the current
    /// position, whose result is then counted at every node from the root to
    /// that node. `None`, with nothing done, if the current position cannot
    /// be followed in the tree.
    pub fn simulate_current(&mut self) -> (r: Option<i32>)
        requires
            old(self).wf(),
        ensures
            final(self).wf(),
            final(self).cur_state == old(self).cur_state,
            final(self).options == old(self).options,
            extends(old(self).tree.nodes@, final(self).tree.nodes@),
            r.is_none() <==> walk(old(self).tree.nodes@, old(self).cur_state.pieces@).is_none()
                || old(self).cur_state.pieces@.len() > 225,
            r matches Some(x) ==> is_result(x),
            r.is_some() && old(self).tree.nodes@[0].visits < u32::MAX ==> final(self).tree.nodes@[0].visits
                > old(self).tree.nodes@[0].visits,
            r matches Some(x) ==> {
                let n = walk(old(self).tree.nodes@, old(self).cur_state.pieces@).unwrap();
                let a = old(self).tree.nodes@;
                let b = final(self).tree.nodes@;
                &&& forall|k: int|
                    0 <= k < a.len() && k != n && #[trigger] on_path(a, old(self).cur_state.pieces@, k)
                        ==> b[k] == a[k].virtual_loss().settled(x)
                &&& a[n].winner == Proven::Unknown ==> b[n] == (Node {
                    expansion: b[n].expansion,
                    ..a[n].virtual_loss().settled(x).virtual_loss().settled(x)
                })
                &&& a[n].winner != Proven::Unknown ==> b[n] == a[n].virtual_loss().settled(x)
            },
    {
        let mut state = self.cur_state.clone();
        let node = match self.tree.get_to_node(state.pieces.as_slice()) {
            Some(n) => n,
            None => return None,
        };
        if state.pieces.len() > CELLS {
            return None;
        }
        let ghost before = self.tree.nodes@;
        let reward = Self::simulate_once(&self.options, &mut self.tree, node, &mut state, false);
        proof {
            lemma_walk_extends(before, self.tree.nodes@, state.pieces@);
        }
        let ghost mid = self.tree.nodes@;
        self.tree.propagate_reward(reward, state.pieces.as_slice());
        proof {
            assert(extends(mid, self.tree.nodes@)) by {
                assert forall|i: int| #![trigger self.tree.nodes@[i]] 0 <= i < mid.len() implies self.tree.nodes@[i].m == mid[i].m
                    && self.tree.nodes@[i].visits >= mid[i].visits && (mid[i].expansion.content().is_some() ==> self.tree.nodes@[i].expansion.content() == mid[i].expansion.content()) by {
                    assert(self.tree.nodes@[i] == mid[i] || self.tree.nodes@[i] == mid[i].virtual_loss().settled(reward));
                }
            }
            lemma_extends_trans(before, mid, self.tree.nodes@);
            assert(state.pieces@.take(0) =~= Seq::<Move>::empty());
            assert(walk(before, state.pieces@.take(0)) == Some(0int));
            lemma_walk_extends(before, mid, state.pieces@.take(0));
            assert(crate::mcts::node::on_path(mid, state.pieces@, 0));
            let ms = state.pieces@;
            assert(ms.take(ms.len() as int) =~= ms);
            assert(on_path(mid, ms, node as int));
            assert forall|k: int|
                0 <= k < before.len() && k != node && #[trigger] on_path(before, ms, k) implies self.tree.nodes@[k]
                    == before[k].virtual_loss().settled(reward) by {
                let t = choose|t: int| 0 <= t <= ms.len() && #[trigger] walk(before, ms.take(t)) == Some(k);
                lemma_walk_prefix(before, ms, t);
                assert(t < ms.len());
                assert(k < node);
                lemma_walk_extends(before, mid, ms.take(t));
                assert(on_path(mid, ms, k));
            }
        }
        Some(reward)
    }
}

} // verus!
