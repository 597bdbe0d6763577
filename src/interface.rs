//! The common structures and traits.
use vstd::prelude::*;

verus! {

/// An assessment of a game state from the perspective of the player whose turn it is to play.
/// Higher values mean a more favorable state. A draw is a score of zero.
pub type Evaluation = i16;

/// An absolutely wonderful outcome, e.g. a win.
pub const BEST_EVAL: Evaluation = 32767;

/// An absolutely disastrous outcome, e.g. a loss. It negates to `BEST_EVAL`.
pub const WORST_EVAL: Evaluation = -32767;

/// The result of playing a game until it finishes.
#[derive(Debug, Copy, Clone, PartialEq, Eq, Structural)]
pub enum Winner {
    /// The player who made the last move won.
    PlayerJustMoved,
    /// Nobody won.
    Draw,
    /// The player who made the last move lost.
    PlayerToMove,
}

impl Winner {
    /// Canonical evaluations for end states, seen by the player to move.
    pub fn evaluate(&self) -> (r: Evaluation)
        ensures
            r == match *self {
                Winner::PlayerJustMoved => WORST_EVAL,
                Winner::PlayerToMove => BEST_EVAL,
                Winner::Draw => 0,
            },
    {
        match *self {
            Winner::PlayerJustMoved => WORST_EVAL,
            Winner::PlayerToMove => BEST_EVAL,
            Winner::Draw => 0,
        }
    }
}

/// The rules of a two-player, perfect-knowledge game.
///
/// Each operation is specified over spec functions that the implementing game
/// defines, so that verified callers can reason about states and moves.
pub trait Game: Sized {
    /// The type of the game state.
    type S;
    /// The type of game moves.
    type M;

    /// States on which the operations are defined.
    spec fn valid_state(state: Self::S) -> bool;

    /// `moves` lists exactly the legal moves of `state`, in the game's order.
    spec fn legal_list(state: Self::S, moves: Seq<Self::M>) -> bool;

    /// `after` is `before` with `m` played.
    spec fn played(before: Self::S, m: Self::M, after: Self::S) -> bool;

    /// `m` is the last move of `state`.
    spec fn last_move_is(state: Self::S, m: Self::M) -> bool;

    /// The result of a finished game, or `None` while it goes on.
    spec fn outcome(state: Self::S) -> Option<Winner>;

    /// Generate moves at the given state. `moves` is cleared first.
    fn generate_moves(state: &Self::S, moves: &mut Vec<Self::M>)
        requires
            Self::valid_state(*state),
        ensures
            Self::legal_list(*state, final(moves)@),
    ;

    /// Apply a move in place to get a new state.
    fn apply(state: &mut Self::S, m: &Self::M)
        ensures
            Self::played(*old(state), *m, *final(state)),
    ;

    /// Undo the mutation done by `apply`.
    fn undo(state: &mut Self::S, m: &Self::M)
        requires
            Self::last_move_is(*old(state), *m),
        ensures
            Self::played(*final(state), *m, *old(state)),
    ;

    /// `Some(PlayerJustMoved)` or `Some(PlayerToMove)` if there is a winner,
    /// `Some(Draw)` if the state is terminal without one, and `None` if the
    /// game goes on.
    fn get_winner(state: &Self::S) -> (r: Option<Winner>)
        requires
            Self::valid_state(*state),
        ensures
            r == Self::outcome(*state),
    ;

    /// A move that does not change the board state, if the game has one.
    fn null_move(state: &Self::S) -> Option<Self::M> {
        None
    }

    /// A human-readable notation for this move in this game state.
    fn notation(state: &Self::S, m: Self::M) -> Option<String> {
        None
    }

    /// A small index for this move for position-independent tables.
    fn table_index(m: Self::M) -> u16 {
        0
    }

    /// Maximum index value.
    fn max_table_index() -> u16 {
        0
    }
}

/// A method of choosing a move for the current player.
pub trait Strategy<G: Game> {
    fn choose_move(&mut self, state: &G::S) -> Option<G::M>;

    /// For strategies that can ponder indefinitely, set the timeout.
    fn set_timeout(&mut self, timeout: std::time::Duration) {
    }

    /// Set the maximum depth to evaluate (instead of the timeout).
    fn set_max_depth(&mut self, depth: u8) {
    }

    /// The best sequence of moves for both players found by the last search.
    fn principal_variation(&self) -> Vec<G::M> {
        Vec::new()
    }
}

} // verus!
