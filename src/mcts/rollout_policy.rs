//! Weighted random playouts.
use super::algorithm::MCTSOptions;
use super::node::{is_result, LOSS, WIN};
use crate::gomoku::{all_valid, free_cells, has_five, gomoku_outcome, marked, Gomoku, Move, State};
use crate::interface::{Game, Winner};
use rand::seq::SliceRandom;
use vstd::prelude::*;

verus! {

pub struct RolloutPolicy;

/// Weight of a move in playouts: 15 less its taxicab distance to the centre,
/// so 15 at the centre and 1 in a corner.
pub fn centre_weight(m: &Move) -> (r: usize)
    ensures
        m.valid() ==> r == 15 - m.centre_distance() && 1 <= r <= 15,
{
    let d = m.distance_to_centre();
    if d >= 15 {
        0
    } else {
        15 - d
    }
}

/// Relies on rand's `SliceRandom::choose_weighted` over the thread-local
/// generator: for a non-empty slice whose weights are all positive and sum
/// without overflow, it returns one of the slice's elements.
#[verifier::external_body]
fn choose_weighted_move(moves: &Vec<Move>) -> (r: Move)
    requires
        0 < moves@.len() <= 225,
        forall|k: int| 0 <= k < moves@.len() ==> (#[trigger] moves@[k]).valid(),
    ensures
        moves@.contains(r),
{
    *moves.choose_weighted(&mut rand::thread_rng(), |m| centre_weight(m)).unwrap()
}

/// No legal move of `s` gives the player who makes it five in a row.
pub open spec fn no_win_in_one(s: Seq<Move>) -> bool {
    forall|m: Move| m.valid() && !marked(s, m.0 as int, false) ==> !#[trigger] has_five(s.push(m))
}

/// `m` takes a free cell of the unfinished position `pos`.
#[verifier::opaque]
pub open spec fn legal_step(pos: Seq<Move>, m: Move) -> bool {
    gomoku_outcome(pos).is_none() && m.valid() && !marked(pos, m.0 as int, false)
}

/// `ms` is a playout from `s` capped at `cap` moves: each move takes a free
/// cell of an unfinished position, and the playout stops at a finished
/// position, at the cap, or with no cell left.
pub open spec fn is_playout(s: Seq<Move>, ms: Seq<Move>, cap: int) -> bool {
    &&& ms.len() <= cap
    &&& forall|k: int| 0 <= k < ms.len() ==> legal_step(s + ms.take(k), #[trigger] ms[k])
    &&& gomoku_outcome(s + ms).is_some() || ms.len() == cap || forall|i: int|
        0 <= i < 225 ==> marked(s + ms, i, false)
}

/// The value of playout `ms` from `s` for the player who made the last move
/// of `s`: 1 if that player wins, -1 if the other one does, 0 otherwise.
pub open spec fn playout_value(s: Seq<Move>, ms: Seq<Move>) -> int {
    match gomoku_outcome(s + ms) {
        Some(Winner::PlayerJustMoved) => if ms.len() % 2 == 0 {
            1
        } else {
            -1
        },
        Some(Winner::PlayerToMove) => if ms.len() % 2 == 0 {
            -1
        } else {
            1
        },
        _ => 0,
    }
}

/// What a playout that stops at once returns, for a finished game.
pub open spec fn first_terminal_value(w: Winner) -> i32 {
    match w {
        Winner::PlayerJustMoved => WIN,
        Winner::PlayerToMove => LOSS,
        Winner::Draw => 0,
    }
}

impl RolloutPolicy {
    /// A legal move of `state` drawn with the centre weights, or `None` when
    /// no cell is left. `move_scratch` is working space.
    fn random_move(state: &State, move_scratch: &mut Vec<Move>) -> (r: Option<Move>)
        requires
            all_valid(state.pieces@),
        ensures
            r matches Some(m) ==> m.valid() && !marked(state.pieces@, m.0 as int, false),
            r.is_none() ==> forall|i: int| 0 <= i < 225 ==> marked(state.pieces@, i, false),
            free_cells(state.pieces@, final(move_scratch)@),
    {
        Gomoku::generate_moves(state, move_scratch);
        if move_scratch.len() == 0 {
            proof {
                assert forall|i: int| 0 <= i < 225 implies marked(state.pieces@, i, false) by {
                    if !marked(state.pieces@, i, false) {
                        assert(move_scratch@.contains(Move(i as u8)));
                    }
                }
            }
            return None;
        }
        proof {
            assert forall|k: int| 0 <= k < move_scratch@.len() implies move_scratch@[k].0 >= k by {
                lemma_increasing_lower_bound(move_scratch@, k);
            }
            assert(move_scratch@[move_scratch@.len() - 1].valid());
        }
        let m = choose_weighted_move(move_scratch);
        Some(m)
    }

    /// Plays weighted random moves from `state` until the game ends or
    /// `max_rollout_depth` moves were made. The result is seen by the player
    /// to move in `state`: a proven sentinel if `state` itself is finished,
    /// else 1, -1 or 0 for a win, a loss or a draw (reaching the depth cap
    /// is a draw).
    #[verifier::rlimit(100)]
    pub fn rollout(options: &MCTSOptions, state: &State) -> (r: i32)
        requires
            all_valid(state.pieces@),
        ensures
            is_result(r),
            gomoku_outcome(state.pieces@) matches Some(w) ==> r == first_terminal_value(w),
            gomoku_outcome(state.pieces@).is_none() ==> -1 <= r <= 1,
            gomoku_outcome(state.pieces@).is_none() && options.max_rollout_depth == 0 ==> r == 0,
            gomoku_outcome(state.pieces@).is_none() && options.max_rollout_depth == 1 && no_win_in_one(
                state.pieces@,
            ) ==> r == 0,
            gomoku_outcome(state.pieces@).is_none() ==> exists|ms: Seq<Move>|
                is_playout(state.pieces@, ms, options.max_rollout_depth as int) && r == playout_value(
                    state.pieces@,
                    ms,
                ),
    {
        let max_depth = options.max_rollout_depth;
        let mut depth = max_depth;
        let mut st = state.clone();
        let mut moves: Vec<Move> = Vec::new();
        let mut sign: i32 = 1;
        let ghost s = state.pieces@;
        let ghost mut ms = Seq::<Move>::empty();
        assert(s + ms =~= s);
        loop
            invariant
                st.pieces@ == s + ms,
                depth == max_depth - ms.len(),
                sign == (if ms.len() % 2 == 0 { 1i32 } else { -1i32 }),
                forall|k: int| 0 <= k < ms.len() ==> legal_step(s + ms.take(k), #[trigger] ms[k]),
                all_valid(st.pieces@),
                depth <= max_depth,
                max_depth == options.max_rollout_depth,
                s == state.pieces@,
                sign == 1 || sign == -1,
                depth == max_depth ==> st.pieces@ == s && sign == 1,
                depth < max_depth ==> gomoku_outcome(s).is_none(),
                max_depth == 1 && depth == 0 ==> {
                    &&& st.pieces@.len() == s.len() + 1
                    &&& st.pieces@ == s.push(st.pieces@.last())
                    &&& st.pieces@.last().valid()
                    &&& !marked(s, st.pieces@.last().0 as int, false)
                },
            decreases depth,
        {
            if let Some(winner) = Gomoku::get_winner(&st) {
                proof {
                    if depth < max_depth {
                        assert(is_playout(s, ms, max_depth as int));
                    }
                }
                let first = depth == max_depth;
                if first {
                    return match winner {
                        Winner::PlayerJustMoved => WIN,
                        Winner::PlayerToMove => LOSS,
                        Winner::Draw => 0,
                    };
                }
                let v = match winner {
                    Winner::PlayerJustMoved => sign,
                    Winner::PlayerToMove => -sign,
                    Winner::Draw => 0,
                };
                assert(v == playout_value(s, ms));
                return v;
            }
            if depth == 0 {
                assert(playout_value(s, ms) == 0);
                assert(is_playout(s, ms, max_depth as int));
                return 0;
            }
            let m = match Self::random_move(&st, &mut moves) {
                Some(m) => m,
                None => {
                    assert(playout_value(s, ms) == 0);
                    assert(is_playout(s, ms, max_depth as int));
                    return 0;
                },
            };
            let ghost before = st.pieces@;
            Gomoku::apply(&mut st, &m);
            proof {
                assert forall|j: int| 0 <= j < st.pieces@.len() implies (#[trigger] st.pieces@[j]).valid() by {
                    if j < before.len() {
                        assert(st.pieces@[j] == before[j]);
                    }
                }
                if max_depth == 1 {
                    assert(st.pieces@.last() == m);
                }
                let ms2 = ms.push(m);
                assert(st.pieces@ =~= s + ms2);
                assert(legal_step(s + ms, m)) by {
                    reveal(legal_step);
                }
                lemma_playout_step(s, ms, m);
                ms = ms2;
            }
            sign = -sign;
            depth -= 1;
        }
    }
}

/// Extending a playout prefix by a free cell of an unfinished position keeps
/// each move legal.
proof fn lemma_playout_step(s: Seq<Move>, ms: Seq<Move>, m: Move)
    requires
        forall|k: int| 0 <= k < ms.len() ==> legal_step(s + ms.take(k), #[trigger] ms[k]),
        legal_step(s + ms, m),
    ensures
        forall|k: int| 0 <= k < ms.len() + 1 ==> legal_step(s + ms.push(m).take(k), #[trigger] ms.push(m)[k]),
{
    let ms2 = ms.push(m);
    assert forall|k: int| 0 <= k < ms2.len() implies legal_step(s + ms2.take(k), #[trigger] ms2[k]) by {
        if k < ms.len() {
            assert(ms2.take(k) =~= ms.take(k));
            assert(ms2[k] == ms[k]);
        } else {
            assert(ms2.take(k) =~= ms);
        }
    }
}

/// In a strictly increasing list of cell numbers, the `k`-th is at least `k`.
proof fn lemma_increasing_lower_bound(ms: Seq<Move>, k: int)
    requires
        0 <= k < ms.len(),
        forall|a: int, b: int| 0 <= a < b < ms.len() ==> ms[a].0 < ms[b].0,
    ensures
        ms[k].0 >= k,
    decreases k,
{
    if k > 0 {
        lemma_increasing_lower_bound(ms, k - 1);
    }
}

} // verus!
