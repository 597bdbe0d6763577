//! Gomoku on a 15x15 board: moves, positions and the rules.
use crate::interface::{Game, Winner};
use vstd::prelude::*;

verus! {

/// Number of cells on the board.
pub const CELLS: usize = 225;

/// The game of Gomoku, as an implementation of [`Game`].
pub struct Gomoku;

/// A stone colour. Black plays first.
#[derive(PartialEq, Eq, Structural, Clone, Copy, Debug)]
pub enum Stone {
    Black,
    White,
}

/// A cell of the board, numbered `row * 15 + col`.
#[derive(Clone, Copy, PartialEq, Eq, Structural, Debug)]
pub struct Move(pub u8);

/// A position: the moves played so far, from the empty board.
#[derive(Debug)]
pub struct State {
    pub pieces: Vec<Move>,
}

impl Move {
    /// The move is a cell of the board.
    pub open spec fn valid(self) -> bool {
        self.0 < 225
    }

    pub open spec fn row(self) -> int {
        self.0 as int / 15
    }

    pub open spec fn col(self) -> int {
        self.0 as int % 15
    }

    /// Taxicab distance to the centre cell (7, 7).
    pub open spec fn centre_distance(self) -> int {
        abs_diff(self.row(), 7) + abs_diff(self.col(), 7)
    }

    /// The move at `row`, `col`.
    pub fn new(row: usize, col: usize) -> (r: Self)
        requires
            row * 15 + col < 225,
        ensures
            r.valid(),
            r.0 == row * 15 + col,
            col < 15 ==> r.row() == row && r.col() == col,
    {
        let ind = col + row * 15;
        proof {
            if col < 15 {
                assert((row * 15 + col) / 15 == row && (row * 15 + col) % 15 == col) by (nonlinear_arith)
                    requires col < 15;
            }
        }
        Move(ind as u8)
    }

    /// The (row, col) of the move.
    pub fn get_coord(&self) -> (r: (usize, usize))
        ensures
            r.0 == self.row(),
            r.1 == self.col(),
    {
        (self.0 as usize / 15, self.0 as usize % 15)
    }

    /// Taxicab distance to the centre cell (7, 7).
    pub fn distance_to_centre(&self) -> (r: usize)
        ensures
            r == self.centre_distance(),
    {
        let (row, col) = self.get_coord();
        let dr = if row >= 7 { row - 7 } else { 7 - row };
        let dc = if col >= 7 { col - 7 } else { 7 - col };
        dr + dc
    }

    /// The move written as column letter `letter` (`a` to `o`, either case)
    /// and row number `row` (0 to 14), or `None` outside the board.
    pub fn from_notation(letter: u8, row: usize) -> (r: Option<Self>)
        ensures
            r matches Some(m) ==> m.valid() && m.row() == row && (m.col() == letter - 97 || m.col()
                == letter - 65),
            r.is_some() <==> row < 15 && (97 <= letter < 112 || 65 <= letter < 80),
    {
        let col: usize = if 97 <= letter && letter < 112 {
            (letter - 97) as usize
        } else if 65 <= letter && letter < 80 {
            (letter - 65) as usize
        } else {
            return None;
        };
        if row >= 15 {
            return None;
        }
        Some(Move::new(row, col))
    }

    /// The lower-case column letter of the move, `a` for column 0.
    pub fn column_letter(&self) -> (r: u8)
        requires
            self.valid(),
        ensures
            r == 97 + self.col(),
    {
        let (_, col) = self.get_coord();
        97 + col as u8
    }

    /// Orders moves by closeness to the centre: a move nearer to (7, 7) is
    /// greater, and moves at equal distance compare equal. This is the reverse
    /// of the distance order, so that a max-first consumer takes the most
    /// central move first.
    pub fn cmp(&self, other: &Move) -> (r: std::cmp::Ordering)
        ensures
            r == std::cmp::Ordering::Less <==> self.centre_distance() > other.centre_distance(),
            r == std::cmp::Ordering::Equal <==> self.centre_distance() == other.centre_distance(),
            r == std::cmp::Ordering::Greater <==> self.centre_distance() < other.centre_distance(),
    {
        let self_dis = self.distance_to_centre();
        let other_dis = other.distance_to_centre();
        if other_dis < self_dis {
            std::cmp::Ordering::Less
        } else if other_dis == self_dis {
            std::cmp::Ordering::Equal
        } else {
            std::cmp::Ordering::Greater
        }
    }
}

/// Encoding a cell as `row * 15 + col` and decoding it again gives the cell
/// back, and every number below 225 encodes a cell.
pub proof fn lemma_move_encoding(row: int, col: int, i: int)
    requires
        0 <= row < 15,
        0 <= col < 15,
        0 <= i < 225,
    ensures
        0 <= row * 15 + col < 225,
        Move((row * 15 + col) as u8).row() == row,
        Move((row * 15 + col) as u8).col() == col,
        0 <= Move(i as u8).row() < 15,
        0 <= Move(i as u8).col() < 15,
        Move(i as u8).row() * 15 + Move(i as u8).col() == i,
{
    assert(0 <= row * 15 + col < 225) by (nonlinear_arith)
        requires
            0 <= row < 15,
            0 <= col < 15,
    ;
    assert((row * 15 + col) / 15 == row && (row * 15 + col) % 15 == col) by (nonlinear_arith)
        requires
            0 <= row < 15,
            0 <= col < 15,
    ;
}

/// Playing a move and undoing it gives back the position, move for move.
pub proof fn lemma_apply_undo(s: State, m: Move, applied: State, undone: State)
    requires
        Gomoku::played(s, m, applied),
        Gomoku::played(undone, m, applied),
    ensures
        undone.pieces@ == s.pieces@,
{
    assert(undone.pieces@ =~= applied.pieces@.drop_last());
    assert(s.pieces@ =~= applied.pieces@.drop_last());
}

pub open spec fn abs_diff(a: int, b: int) -> int {
    if a >= b {
        a - b
    } else {
        b - a
    }
}

/// Every move of `s` is a cell of the board.
pub open spec fn all_valid(s: Seq<Move>) -> bool {
    forall|j: int| 0 <= j < s.len() ==> (#[trigger] s[j]).valid()
}

/// Cell `i` holds a stone of `s`; with `mover_only`, one of the player who
/// made the last move (the moves whose index has the parity of the last one).
pub open spec fn marked(s: Seq<Move>, i: int, mover_only: bool) -> bool {
    exists|j: int|
        0 <= j < s.len() && (!mover_only || j % 2 == (s.len() - 1) % 2) && (#[trigger] s[j]).0
            == i
}

/// The player who made the last move of `s` has a stone at (`r`, `c`).
pub open spec fn mover_at(s: Seq<Move>, r: int, c: int) -> bool {
    0 <= r < 15 && 0 <= c < 15 && marked(s, r * 15 + c, true)
}

/// `t` steps in a direction whose component is `d` (-1, 0 or 1).
pub open spec fn offset(t: int, d: int) -> int {
    if d == 0 {
        0
    } else if d > 0 {
        t
    } else {
        -t
    }
}

/// The five cells from (`r`, `c`) in direction (`dr`, `dc`) all hold the last
/// mover's stones.
pub open spec fn five_from(s: Seq<Move>, r: int, c: int, dr: int, dc: int) -> bool {
    forall|k: int| 0 <= k < 5 ==> #[trigger] mover_at(s, r + offset(k, dr), c + offset(k, dc))
}

/// The line through (`r`, `c`) in direction (`dr`, `dc`) holds an unbroken run
/// of at least five of the last mover's stones.
pub open spec fn five_on_line(s: Seq<Move>, r: int, c: int, dr: int, dc: int) -> bool {
    exists|t: int| #[trigger] five_from(s, r + offset(t, dr), c + offset(t, dc), dr, dc)
}

/// The player who made the last move has five in a row on one of the four
/// lines through the last stone.
pub open spec fn has_five(s: Seq<Move>) -> bool {
    s.len() > 0 && {
        let r = s.last().row();
        let c = s.last().col();
        five_on_line(s, r, c, 0, 1) || five_on_line(s, r, c, 1, 0) || five_on_line(s, r, c, 1, 1)
            || five_on_line(s, r, c, 1, -1)
    }
}

/// The outcome of a Gomoku position.
pub open spec fn gomoku_outcome(s: Seq<Move>) -> Option<Winner> {
    if has_five(s) {
        Some(Winner::PlayerJustMoved)
    } else if s.len() == 225 {
        Some(Winner::Draw)
    } else {
        None
    }
}

/// `moves` lists, in increasing order, exactly the cells that `s` leaves empty.
pub open spec fn free_cells(s: Seq<Move>, moves: Seq<Move>) -> bool {
    &&& forall|a: int, b: int| 0 <= a < b < moves.len() ==> moves[a].0 < moves[b].0
    &&& forall|a: int| 0 <= a < moves.len() ==> (#[trigger] moves[a]).valid() && !marked(s, moves[a].0 as int, false)
    &&& forall|i: int| 0 <= i < 225 && !marked(s, i, false) ==> moves.contains(Move(i as u8))
}

/// `board[i]` tells whether cell `i` is marked in `s`.
pub open spec fn board_of(board: Seq<bool>, s: Seq<Move>, mover_only: bool) -> bool {
    board.len() == 225 && forall|i: int| 0 <= i < 225 ==> board[i] == marked(s, i, mover_only)
}

/// A board of 225 cells marking the stones of `pieces` (only the last mover's
/// with `mover_only`).
fn mark_board(pieces: &Vec<Move>, mover_only: bool) -> (board: Vec<bool>)
    requires
        all_valid(pieces@),
    ensures
        board_of(board@, pieces@, mover_only),
{
    let mut board: Vec<bool> = Vec::new();
    let mut i: usize = 0;
    while i < CELLS
        invariant
            i <= 225,
            board@.len() == i,
            forall|k: int| 0 <= k < i ==> !board@[k],
        decreases 225 - i,
    {
        board.push(false);
        i += 1;
    }
    let n = pieces.len();
    let mut j: usize = 0;
    while j < n
        invariant
            n == pieces@.len(),
            j <= n,
            all_valid(pieces@),
            board@.len() == 225,
            forall|k: int|
                0 <= k < 225 ==> board@[k] == exists|jj: int|
                    0 <= jj < j && (!mover_only || jj % 2 == (n - 1) % 2) && (#[trigger] pieces@[jj]).0 == k,
        decreases n - j,
    {
        let p = pieces[j];
        assert(pieces@[j as int].valid());
        if !mover_only || j % 2 == (n - 1) % 2 {
            board.set(p.0 as usize, true);
        }
        proof {
            assert forall|k: int| 0 <= k < 225 implies board@[k] == exists|jj: int|
                0 <= jj < j + 1 && (!mover_only || jj % 2 == (n - 1) % 2) && (#[trigger] pieces@[jj]).0 == k by {
                if (!mover_only || j % 2 == (n - 1) % 2) && p.0 == k {
                    assert(pieces@[j as int].0 == k);
                }
            }
        }
        j += 1;
    }
    board
}

/// `t` steps in a direction whose component is `d`.
fn step(t: i32, d: i32) -> (r: i32)
    requires
        -40 <= t <= 40,
    ensures
        r == offset(t as int, d as int),
{
    if d == 0 {
        0
    } else if d > 0 {
        t
    } else {
        -t
    }
}

/// Whether the five cells from (`r`, `c`) in direction (`dr`, `dc`) are all
/// marked on `board`.
fn five_at(board: &Vec<bool>, s: Ghost<Seq<Move>>, r: i32, c: i32, dr: i32, dc: i32) -> (b: bool)
    requires
        board_of(board@, s@, true),
        -30 <= r <= 30,
        -30 <= c <= 30,
    ensures
        b == five_from(s@, r as int, c as int, dr as int, dc as int),
{
    let mut k: i32 = 0;
    while k < 5
        invariant
            0 <= k <= 5,
            board_of(board@, s@, true),
            -30 <= r <= 30,
            -30 <= c <= 30,
            forall|k2: int|
                0 <= k2 < k ==> #[trigger] mover_at(s@, r + offset(k2, dr as int), c + offset(k2, dc as int)),
        decreases 5 - k,
    {
        let rr = r + step(k, dr);
        let cc = c + step(k, dc);
        if rr < 0 || rr >= 15 || cc < 0 || cc >= 15 {
            assert(!mover_at(s@, r + offset(k as int, dr as int), c + offset(k as int, dc as int)));
            return false;
        }
        if !board[(rr * 15 + cc) as usize] {
            assert(!mover_at(s@, r + offset(k as int, dr as int), c + offset(k as int, dc as int)));
            return false;
        }
        k += 1;
    }
    true
}

/// Whether the line through (`r`, `c`) in direction (`dr`, `dc`) holds a run
/// of five marked cells.
fn five_in_line(board: &Vec<bool>, s: Ghost<Seq<Move>>, r: i32, c: i32, dr: i32, dc: i32) -> (b: bool)
    requires
        board_of(board@, s@, true),
        0 <= r < 15,
        0 <= c < 15,
        dr == 0 || dr == 1,
        -1 <= dc <= 1,
        dr != 0 || dc != 0,
    ensures
        b == five_on_line(s@, r as int, c as int, dr as int, dc as int),
{
    let mut t: i32 = -14;
    while t <= 14
        invariant
            -14 <= t <= 15,
            board_of(board@, s@, true),
            0 <= r < 15,
            0 <= c < 15,
            forall|t2: int|
                -14 <= t2 < t ==> !#[trigger] five_from(
                    s@,
                    r + offset(t2, dr as int),
                    c + offset(t2, dc as int),
                    dr as int,
                    dc as int,
                ),
        decreases 15 - t,
    {
        if five_at(board, s, r + step(t, dr), c + step(t, dc), dr, dc) {
            return true;
        }
        t += 1;
    }
    assert forall|t2: int| !#[trigger] five_from(s@, r + offset(t2, dr as int), c + offset(t2, dc as int), dr as int, dc as int) by {
        if t2 < -14 || t2 > 14 {
            assert(!mover_at(s@, r + offset(t2, dr as int) + offset(0, dr as int), c + offset(t2, dc as int) + offset(0, dc as int)));
        }
    }
    false
}

impl State {
    /// The position reached by playing `moves` from the empty board.
    pub fn new(moves: Vec<Move>) -> (r: Self)
        ensures
            r.pieces@ == moves@,
    {
        Self { pieces: moves }
    }

    pub fn player_to_move(&self) -> (r: Stone)
        ensures
            r == (if self.pieces@.len() % 2 == 0 { Stone::Black } else { Stone::White }),
    {
        if self.pieces.len() % 2 == 0 {
            Stone::Black
        } else {
            Stone::White
        }
    }

    pub fn player_just_moved(&self) -> (r: Stone)
        ensures
            r == (if self.pieces@.len() % 2 == 0 { Stone::White } else { Stone::Black }),
    {
        if self.pieces.len() % 2 == 0 {
            Stone::White
        } else {
            Stone::Black
        }
    }

    /// Every cell holds a stone.
    pub fn is_full(&self) -> (r: bool)
        ensures
            r == (self.pieces@.len() == 225),
    {
        self.pieces.len() == CELLS
    }

    /// The colour of the player who made the last move, if that player has
    /// five in a row on one of the four lines through the last stone.
    pub fn get_winner(&self) -> (r: Option<Stone>)
        requires
            all_valid(self.pieces@),
        ensures
            r.is_some() == has_five(self.pieces@),
            r.is_some() ==> r == Some(
                if self.pieces@.len() % 2 == 0 { Stone::White } else { Stone::Black },
            ),
    {
        let n = self.pieces.len();
        if n == 0 {
            return None;
        }
        let last = self.pieces[n - 1];
        let (row, col) = last.get_coord();
        let board = mark_board(&self.pieces, true);
        let s = Ghost(self.pieces@);
        let (r, c) = (row as i32, col as i32);
        if five_in_line(&board, s, r, c, 0, 1) || five_in_line(&board, s, r, c, 1, 0)
            || five_in_line(&board, s, r, c, 1, 1) || five_in_line(&board, s, r, c, 1, -1) {
            Some(self.player_just_moved())
        } else {
            None
        }
    }
}

impl Clone for State {
    fn clone(&self) -> (r: Self)
        ensures
            r.pieces@ == self.pieces@,
    {
        let mut pieces: Vec<Move> = Vec::new();
        let mut i: usize = 0;
        while i < self.pieces.len()
            invariant
                i <= self.pieces@.len(),
                pieces@ == self.pieces@.subrange(0, i as int),
            decreases self.pieces@.len() - i,
        {
            pieces.push(self.pieces[i]);
            i += 1;
            assert(pieces@ =~= self.pieces@.subrange(0, i as int));
        }
        assert(pieces@ =~= self.pieces@);
        State { pieces }
    }
}

impl Default for State {
    fn default() -> (r: Self)
        ensures
            r.pieces@.len() == 0,
    {
        State { pieces: Vec::new() }
    }
}

impl Game for Gomoku {
    type S = State;

    type M = Move;

    open spec fn valid_state(state: State) -> bool {
        all_valid(state.pieces@)
    }

    open spec fn legal_list(state: State, moves: Seq<Move>) -> bool {
        free_cells(state.pieces@, moves)
    }

    open spec fn played(before: State, m: Move, after: State) -> bool {
        after.pieces@ == before.pieces@.push(m)
    }

    open spec fn last_move_is(state: State, m: Move) -> bool {
        state.pieces@.len() > 0 && state.pieces@.last() == m
    }

    open spec fn outcome(state: State) -> Option<Winner> {
        gomoku_outcome(state.pieces@)
    }

    fn generate_moves(state: &State, moves: &mut Vec<Move>) {
        moves.clear();
        let pieces = mark_board(&state.pieces, false);
        let mut i: usize = 0;
        while i < CELLS
            invariant
                i <= 225,
                board_of(pieces@, state.pieces@, false),
                forall|a: int, b: int| 0 <= a < b < moves@.len() ==> moves@[a].0 < moves@[b].0,
                forall|a: int| 0 <= a < moves@.len() ==> moves@[a].0 < i,
                forall|a: int|
                    0 <= a < moves@.len() ==> (#[trigger] moves@[a]).valid() && !marked(
                        state.pieces@,
                        moves@[a].0 as int,
                        false,
                    ),
                forall|k: int| 0 <= k < i && !marked(state.pieces@, k, false) ==> moves@.contains(Move(k as u8)),
            decreases 225 - i,
        {
            let ghost prev = moves@;
            if !pieces[i] {
                moves.push(Move(i as u8));
                assert(moves@[moves@.len() - 1] == Move(i as u8));
                assert forall|k: int| 0 <= k < i && !marked(state.pieces@, k, false) implies moves@.contains(Move(k as u8)) by {
                    let w = choose|w: int| 0 <= w < prev.len() && prev[w] == Move(k as u8);
                    assert(moves@[w] == Move(k as u8));
                }
            }
            i += 1;
        }
    }

    fn apply(state: &mut State, m: &Move) {
        state.pieces.push(*m);
    }

    fn undo(state: &mut State, m: &Move) {
        let last_move = state.pieces.pop();
        proof {
            assert(state.pieces@.push(*m) =~= old(state).pieces@);
        }
    }

    fn get_winner(state: &State) -> Option<Winner> {
        match (state.is_full(), state.get_winner()) {
            (_, Some(_)) => Some(Winner::PlayerJustMoved),
            (true, None) => Some(Winner::Draw),
            _ => None,
        }
    }
}

} // verus!
