use gomoku_core::interface::{Game, Winner, BEST_EVAL, WORST_EVAL};
use gomoku_core::{Gomoku, Move, State, Stone};

fn scattered() -> State {
    State::new(vec![
        Move::new(5, 12),
        Move::new(7, 7),
        Move::new(3, 10),
        Move::new(7, 8),
        Move::new(4, 13),
        Move::new(7, 9),
        Move::new(6, 11),
        Move::new(7, 10),
        Move::new(3, 14),
    ])
}

#[test]
fn test_cmp() {
    assert_eq!(
        Move::new(8, 7).cmp(&Move::new(7, 8)),
        std::cmp::Ordering::Equal
    );
    assert_eq!(
        Move::new(7, 7).cmp(&Move::new(7, 8)),
        std::cmp::Ordering::Greater
    );
}

#[test]
fn test_get_winner() {
    let test_state = State::new(vec![
        Move::new(5, 12),
        Move::new(7, 7),
        Move::new(3, 10),
        Move::new(7, 8),
        Move::new(4, 13),
        Move::new(7, 9),
        Move::new(6, 11),
        Move::new(7, 10),
        Move::new(3, 14),
    ]);
    assert_eq!(test_state.get_winner(), None);
}

#[test]
fn cmp_farther_move_is_less() {
    assert_eq!(
        Move::new(0, 0).cmp(&Move::new(7, 6)),
        std::cmp::Ordering::Less
    );
    assert_eq!(Move::new(0, 14).cmp(&Move::new(14, 0)), std::cmp::Ordering::Equal);
}

#[test]
fn encoding_round_trips_on_every_cell() {
    let mut seen = [false; 225];
    for row in 0..15 {
        for col in 0..15 {
            let m = Move::new(row, col);
            assert_eq!(m.get_coord(), (row, col));
            assert_eq!(m.0 as usize, row * 15 + col);
            seen[m.0 as usize] = true;
        }
    }
    assert!(seen.iter().all(|&b| b));
}

#[test]
fn scattered_stones_are_not_terminal() {
    assert_eq!(Gomoku::get_winner(&scattered()), None);
}

#[test]
fn fifth_stone_in_a_row_wins_for_white() {
    let mut s = scattered();
    Gomoku::apply(&mut s, &Move::new(7, 11));
    assert_eq!(s.get_winner(), Some(Stone::White));
    assert_eq!(Gomoku::get_winner(&s), Some(Winner::PlayerJustMoved));
}

#[test]
fn run_touching_the_edge_wins() {
    let mut s = State::new(vec![]);
    for (i, col) in (10..15).enumerate() {
        Gomoku::apply(&mut s, &Move::new(7, col));
        if i < 4 {
            Gomoku::apply(&mut s, &Move::new(0, 2 * i));
        }
    }
    assert_eq!(s.get_winner(), Some(Stone::Black));
}

#[test]
fn diagonal_runs_win() {
    let mut s = State::new(vec![]);
    for k in 0..5 {
        Gomoku::apply(&mut s, &Move::new(2 + k, 10 - k));
        if k < 4 {
            Gomoku::apply(&mut s, &Move::new(14, k));
        }
    }
    assert_eq!(s.get_winner(), Some(Stone::Black));

    let mut s = State::new(vec![]);
    for k in 0..5 {
        Gomoku::apply(&mut s, &Move::new(0, 2 * k));
        Gomoku::apply(&mut s, &Move::new(10 - k, 10 - k));
    }
    assert_eq!(Gomoku::get_winner(&s), Some(Winner::PlayerJustMoved));
    assert_eq!(s.player_just_moved(), Stone::White);
}

#[test]
fn four_in_a_row_is_not_a_win() {
    let mut s = State::new(vec![]);
    for k in 0..4 {
        Gomoku::apply(&mut s, &Move::new(7, 3 + k));
        Gomoku::apply(&mut s, &Move::new(0, 2 * k));
    }
    Gomoku::apply(&mut s, &Move::new(7, 8));
    assert_eq!(s.get_winner(), None);
}

#[test]
fn opponent_stones_do_not_count() {
    let mut s = State::new(vec![]);
    for k in 0..4 {
        Gomoku::apply(&mut s, &Move::new(7, k));
        Gomoku::apply(&mut s, &Move::new(10, k));
    }
    Gomoku::apply(&mut s, &Move::new(10, 4));
    assert_eq!(s.get_winner(), None);
}

#[test]
fn full_board_is_terminal() {
    let pieces: Vec<Move> = (0..225).map(|i| Move::new(i / 15, i % 15)).collect();
    let s = State::new(pieces);
    assert!(s.is_full());
    assert!(Gomoku::get_winner(&s).is_some());
    let mut moves = Vec::new();
    Gomoku::generate_moves(&s, &mut moves);
    assert!(moves.is_empty());
}

#[test]
fn apply_then_undo_restores_the_position() {
    let s = scattered();
    let mut t = s.clone();
    let m = Move::new(0, 0);
    Gomoku::apply(&mut t, &m);
    assert_eq!(t.pieces.len(), 10);
    Gomoku::undo(&mut t, &m);
    assert_eq!(t.pieces, s.pieces);
}

#[test]
fn legal_moves_are_the_empty_cells_in_order() {
    let mut moves = vec![Move::new(1, 1)];
    Gomoku::generate_moves(&State::new(vec![]), &mut moves);
    assert_eq!(moves.len(), 225);
    assert_eq!(moves[0], Move::new(0, 0));
    Gomoku::generate_moves(&scattered(), &mut moves);
    assert_eq!(moves.len(), 216);
    assert!(!moves.contains(&Move::new(7, 7)));
    assert!(moves.windows(2).all(|w| w[0].0 < w[1].0));
}

#[test]
fn players_alternate() {
    let s = scattered();
    assert_eq!(s.player_to_move(), Stone::White);
    assert_eq!(s.player_just_moved(), Stone::Black);
    let e = State::default();
    assert_eq!(e.player_to_move(), Stone::Black);
    assert_eq!(e.player_just_moved(), Stone::White);
}

#[test]
fn winner_evaluations() {
    assert_eq!(Winner::PlayerJustMoved.evaluate(), WORST_EVAL);
    assert_eq!(Winner::PlayerToMove.evaluate(), BEST_EVAL);
    assert_eq!(Winner::Draw.evaluate(), 0);
    assert_eq!(BEST_EVAL, i16::MAX);
    assert_eq!(WORST_EVAL, -BEST_EVAL);
}

#[test]
fn centre_distance() {
    assert_eq!(Move::new(7, 7).distance_to_centre(), 0);
    assert_eq!(Move::new(0, 0).distance_to_centre(), 14);
    assert_eq!(Move::new(3, 9).distance_to_centre(), 6);
}

#[test]
fn human_notation() {
    assert_eq!(Move::from_notation(b'h', 7), Some(Move::new(7, 7)));
    assert_eq!(Move::from_notation(b'A', 14), Some(Move::new(14, 0)));
    assert_eq!(Move::from_notation(b'o', 0), Some(Move::new(0, 14)));
    assert_eq!(Move::from_notation(b'p', 0), None);
    assert_eq!(Move::from_notation(b'a', 15), None);
    assert_eq!(Move::from_notation(b'1', 2), None);
    assert_eq!(Move::new(3, 2).column_letter(), b'c');
}
