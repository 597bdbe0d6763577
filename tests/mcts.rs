use gomoku_core::interface::Game;
use gomoku_core::{
    centre_weight, ilog2, isqrt, new_expansion, random_best, AtomicBox, Gomoku, MCTSOptions,
    MonteCarloTreeSearchContinue, Move, Node, Proven, RolloutPolicy, State, Tree, LOSS,
    SCORE_PROVEN_WIN, SCORE_UNVISITED, WIN,
};

fn scattered() -> State {
    State::new(vec![
        Move::new(5, 12),
        Move::new(7, 7),
        Move::new(3, 10),
        Move::new(7, 8),
        Move::new(4, 13),
        Move::new(7, 9),
        Move::new(6, 11),
        Move::new(7, 10),
        Move::new(3, 14),
    ])
}

/// Runs simulations on each prefix of `moves` so that the tree can follow it.
fn grow_along(engine: &mut MonteCarloTreeSearchContinue, moves: &[Move]) {
    for k in 0..=moves.len() {
        engine.change_cur_state(&State::new(moves[..k].to_vec()));
        let mut n = 0;
        while n < 50 {
            if k == moves.len() {
                break;
            }
            let _ = engine.simulate_current();
            let node = engine.tree.get_to_node(&moves[..k]).unwrap();
            if engine.tree.nodes[node].expansion.get().is_some() {
                break;
            }
            n += 1;
        }
    }
}

#[test]
fn cell_keeps_the_first_value() {
    let mut cell: AtomicBox<u32> = AtomicBox::default();
    assert!(cell.get().is_none());
    assert!(cell.try_set(1));
    for v in 2..10 {
        assert!(!cell.try_set(v));
        assert_eq!(cell.get(), Some(&1));
    }
}

#[test]
fn random_best_returns_a_maximum() {
    assert_eq!(random_best(&[]), None);
    assert_eq!(random_best(&[3]), Some(0));
    for _ in 0..100 {
        let i = random_best(&[1, 9, -4, 9, 2]).unwrap();
        assert!(i == 1 || i == 3);
    }
    assert_eq!(random_best(&[-1, -1, 7]), Some(2));
}

#[test]
fn random_best_is_fair_among_ties() {
    let scores = [5i64; 4];
    let mut counts = [0u32; 4];
    let draws = 40_000;
    for _ in 0..draws {
        counts[random_best(&scores).unwrap()] += 1;
    }
    for c in counts {
        let f = c as f64 / draws as f64;
        assert!((f - 0.25).abs() < 0.02, "frequency {}", f);
    }
}

#[test]
fn integer_log_and_root() {
    assert_eq!(ilog2(0), 0);
    assert_eq!(ilog2(1), 0);
    assert_eq!(ilog2(16), 4);
    assert_eq!(ilog2(17), 4);
    assert_eq!(ilog2(u32::MAX), 31);
    assert_eq!(isqrt(0), 0);
    assert_eq!(isqrt(15), 3);
    assert_eq!(isqrt(16), 4);
    assert_eq!(isqrt(8_589_934_592), 92_681);
}

#[test]
fn virtual_loss_then_reward_nets_the_reward() {
    let mut n = Node::new(Some(Move::new(3, 3)));
    n.pre_update_stats();
    assert_eq!((n.visits, n.score), (1, -1));
    assert_eq!(n.update_stats(-1), -1);
    assert_eq!((n.visits, n.score), (1, -1));
    n.pre_update_stats();
    n.update_stats(1);
    assert_eq!((n.visits, n.score), (2, 0));
    n.pre_update_stats();
    n.update_stats(0);
    assert_eq!((n.visits, n.score), (3, 0));
    assert_eq!(n.winner, Proven::Unknown);
}

#[test]
fn sentinels_label_the_node() {
    let mut n = Node::new(Some(Move::new(3, 3)));
    n.pre_update_stats();
    assert_eq!(n.update_stats(WIN), WIN);
    assert_eq!(n.winner, Proven::Win);
    assert_eq!(n.score, -1);
    let mut n = Node::new(Some(Move::new(3, 3)));
    n.update_stats(LOSS);
    assert_eq!(n.winner, Proven::Loss);
}

#[test]
fn selection_scores() {
    let mut n = Node::new(Some(Move::new(0, 0)));
    assert_eq!(n.uct_score(1000, 4), SCORE_UNVISITED);
    assert_eq!(n.uct_score(0, 4), 0);
    n.visits = 4;
    n.score = 2;
    // win ratio 0.75, exploration sqrt(2 * 4 / 4), both scaled by 1000 * 65536
    assert_eq!(n.uct_score(1000, 4), 1000 * 49_152 + 1000 * 92_681);
    assert_eq!(n.uct_score(0, 4), 1000 * 49_152);
    n.score = -4;
    assert_eq!(n.uct_score(0, 4), 0);
    n.winner = Proven::Loss;
    assert_eq!(n.uct_score(1000, 4), -1);
    n.winner = Proven::Win;
    assert_eq!(n.uct_score(1000, 4), SCORE_PROVEN_WIN);
}

#[test]
fn pending_virtual_loss_lowers_the_score_seen_by_others() {
    let mut engine = MonteCarloTreeSearchContinue::new(MCTSOptions::default());
    let leaf = 1;
    engine.tree.nodes[leaf].visits = 3;
    engine.tree.nodes[leaf].score = 1;
    let before = engine.tree.nodes[leaf].uct_score(1000, 3);
    engine.tree.pre_update(leaf);
    assert_eq!(engine.tree.nodes[leaf].visits, 4);
    assert_eq!(engine.tree.nodes[leaf].score, 0);
    let during = engine.tree.nodes[leaf].uct_score(1000, 3);
    assert!(during < before);
    engine.tree.settle(leaf, 1);
    assert_eq!(engine.tree.nodes[leaf].score, 2);
}

#[test]
fn proven_loss_child_is_never_selected() {
    let mut engine = MonteCarloTreeSearchContinue::new(MCTSOptions::default());
    engine.tree.nodes[0].visits = 1000;
    for i in 1..226 {
        engine.tree.nodes[i].visits = 4;
        engine.tree.nodes[i].score = -4;
    }
    engine.tree.nodes[100].visits = 0;
    engine.tree.nodes[100].score = 0;
    engine.tree.nodes[100].winner = Proven::Loss;
    for _ in 0..300 {
        let c = engine.tree.best_child(0, 1000).unwrap();
        assert_ne!(c, 100);
        let c = engine.tree.best_child(0, 0).unwrap();
        assert_ne!(c, 100);
    }
    engine.tree.nodes[57].winner = Proven::Win;
    for _ in 0..50 {
        assert_eq!(engine.tree.best_child(0, 1000), Some(57));
    }
}

#[test]
fn unexpanded_node_has_no_best_child() {
    let tree = Tree::new();
    assert_eq!(tree.best_child(0, 1000), None);
}

#[test]
fn empty_board_gets_the_centre_at_once() {
    let mut engine = MonteCarloTreeSearchContinue::new(MCTSOptions::default());
    assert_eq!(engine.immediate_move(&State::new(vec![])), Some(Move::new(7, 7)));
    assert_eq!(engine.immediate_move(&scattered()), None);
    assert_eq!(engine.cur_state.pieces, scattered().pieces);
}

#[test]
fn new_engine_root_lists_every_cell() {
    let engine = MonteCarloTreeSearchContinue::new(MCTSOptions::default());
    let e = *engine.tree.nodes[0].expansion.get().unwrap();
    assert_eq!((e.first, e.len), (1, 225));
    assert_eq!(engine.tree.nodes[1].m, Some(Move::new(0, 0)));
    assert_eq!(engine.tree.nodes[225].m, Some(Move::new(14, 14)));
    assert_eq!(engine.time_out, std::time::Duration::from_secs(5));
}

#[test]
fn walking_the_tree() {
    let engine = MonteCarloTreeSearchContinue::new(MCTSOptions::default());
    assert_eq!(engine.tree.get_to_node(&[]), Some(0));
    assert_eq!(engine.tree.get_to_node(&[Move::new(0, 2)]), Some(3));
    assert_eq!(engine.tree.get_to_node(&[Move::new(0, 2), Move::new(1, 1)]), None);
}

#[test]
fn reward_is_counted_along_the_path() {
    let mut engine = MonteCarloTreeSearchContinue::new(MCTSOptions::default());
    engine.tree.propagate_reward(1, &[Move::new(0, 2)]);
    assert_eq!((engine.tree.nodes[0].visits, engine.tree.nodes[0].score), (1, 1));
    assert_eq!((engine.tree.nodes[3].visits, engine.tree.nodes[3].score), (1, 1));
    assert_eq!(engine.tree.nodes[4].visits, 0);
}

#[test]
fn expansion_is_published_once() {
    let mut tree = Tree::new();
    let first = tree.try_publish(0, new_expansion(&State::new(vec![])));
    assert_eq!((first.first, first.len), (1, 225));
    let again = tree.try_publish(0, new_expansion(&scattered()));
    assert_eq!((again.first, again.len), (1, 225));
    assert_eq!(tree.nodes.len(), 226);
    assert_eq!(tree.find_child(0, Move::new(14, 14)), Some(225));
}

#[test]
fn rollouts_capped_at_one_move_are_draws() {
    let options = MCTSOptions::default().with_max_rollout_depth(1);
    let state = State::new(vec![Move::new(0, 0), Move::new(14, 14), Move::new(7, 7)]);
    for _ in 0..200 {
        assert_eq!(RolloutPolicy::rollout(&options, &state), 0);
    }
    let options = MCTSOptions::default().with_max_rollout_depth(0);
    assert_eq!(MonteCarloTreeSearchContinue::rollout(&options, &scattered()), 0);
}

#[test]
fn rollout_from_a_finished_game_is_proven() {
    let mut s = scattered();
    Gomoku::apply(&mut s, &Move::new(7, 11));
    assert_eq!(RolloutPolicy::rollout(&MCTSOptions::default(), &s), WIN);
}

#[test]
fn rollout_rewards_are_bounded() {
    let options = MCTSOptions::default();
    for _ in 0..20 {
        let r = RolloutPolicy::rollout(&options, &scattered());
        assert!((-1..=1).contains(&r));
    }
}

#[test]
fn centre_weights() {
    assert_eq!(centre_weight(&Move::new(7, 7)), 15);
    assert_eq!(centre_weight(&Move::new(0, 0)), 1);
    assert_eq!(centre_weight(&Move::new(14, 0)), 1);
    assert_eq!(centre_weight(&Move::new(6, 8)), 13);
}

#[test]
fn options_builders() {
    let o = MCTSOptions::default();
    assert!(!o.verbose);
    assert_eq!(o.max_rollout_depth, 100);
    assert_eq!(o.rollouts_before_expanding, 5);
    assert_eq!(o.num_threads, None);
    let o = o
        .verbose()
        .with_max_rollout_depth(225)
        .with_rollouts_before_expanding(10)
        .with_num_threads(3);
    assert!(o.verbose);
    assert_eq!(o.max_rollout_depth, 225);
    assert_eq!(o.rollouts_before_expanding, 10);
    assert_eq!(o.thread_count(), 3);
    assert!(MCTSOptions::default().thread_count() >= 1);
}

#[test]
fn set_timeout_replaces_the_wait() {
    let mut engine = MonteCarloTreeSearchContinue::new(MCTSOptions::default());
    engine.set_timeout(std::time::Duration::from_millis(250));
    assert_eq!(engine.time_out, std::time::Duration::from_millis(250));
}

#[test]
fn simulations_make_progress() {
    let options = MCTSOptions::default().with_max_rollout_depth(20);
    let mut engine = MonteCarloTreeSearchContinue::new(options);
    let black = vec![Move::new(7, 7)];
    engine.change_cur_state(&State::new(black.clone()));
    let mut last = engine.tree.nodes[0].visits;
    for _ in 0..200 {
        assert!(engine.simulate_current().is_some());
        assert!(engine.tree.nodes[0].visits > last);
        last = engine.tree.nodes[0].visits;
    }
    let node = engine.tree.get_to_node(&black).unwrap();
    let m = engine.most_visited_child(node).unwrap();
    assert!(!black.contains(&m));
    assert!(m.0 < 225);
}

#[test]
fn unknown_position_is_refused() {
    let mut engine = MonteCarloTreeSearchContinue::new(MCTSOptions::default());
    engine.change_cur_state(&State::new(vec![Move::new(7, 7), Move::new(7, 8)]));
    assert_eq!(engine.simulate_current(), None);
    assert_eq!(engine.tree.nodes[0].visits, 0);
}

#[test]
fn most_visited_child_takes_the_first_of_equals() {
    let mut engine = MonteCarloTreeSearchContinue::new(MCTSOptions::default());
    assert_eq!(engine.most_visited_child(0), Some(Move::new(0, 0)));
    engine.tree.nodes[10].visits = 5;
    engine.tree.nodes[20].visits = 5;
    assert_eq!(engine.most_visited_child(0), engine.tree.nodes[10].m);
    assert_eq!(engine.most_visited_child(5), None);
}

#[test]
fn winning_move_is_proven() {
    let line = vec![
        Move::new(7, 3),
        Move::new(0, 0),
        Move::new(7, 4),
        Move::new(0, 2),
        Move::new(7, 5),
        Move::new(0, 4),
        Move::new(7, 6),
        Move::new(0, 6),
    ];
    let options = MCTSOptions::default().with_max_rollout_depth(2);
    let mut engine = MonteCarloTreeSearchContinue::new(options);
    grow_along(&mut engine, &line);
    engine.change_cur_state(&State::new(line.clone()));
    let node = engine.tree.get_to_node(&line).unwrap();
    for _ in 0..3000 {
        if engine.tree.nodes[node].winner == Proven::Loss {
            break;
        }
        assert!(engine.simulate_current().is_some());
    }
    assert_eq!(engine.tree.nodes[node].winner, Proven::Loss);
    let best = engine.tree.best_child(node, 1000).unwrap();
    assert_eq!(engine.tree.nodes[best].winner, Proven::Win);
    let m = engine.tree.nodes[best].m.unwrap();
    assert!(m == Move::new(7, 7) || m == Move::new(7, 2));
    let mut won = State::new(line.clone());
    Gomoku::apply(&mut won, &m);
    assert!(won.get_winner().is_some());
}

#[test]
fn proven_label_is_never_revised() {
    let mut n = Node::new(Some(Move::new(3, 3)));
    n.update_stats(WIN);
    n.update_stats(LOSS);
    assert_eq!(n.winner, Proven::Win);
    n.update_stats(0);
    assert_eq!(n.winner, Proven::Win);
    assert_eq!(n.score, 1);
}

#[test]
fn backed_up_results() {
    assert_eq!(MonteCarloTreeSearchContinue::backed_up_result(WIN, false), LOSS);
    assert_eq!(MonteCarloTreeSearchContinue::backed_up_result(LOSS, true), WIN);
    assert_eq!(MonteCarloTreeSearchContinue::backed_up_result(LOSS, false), -1);
    assert_eq!(MonteCarloTreeSearchContinue::backed_up_result(1, false), -1);
    assert_eq!(MonteCarloTreeSearchContinue::backed_up_result(-1, true), 1);
    assert_eq!(MonteCarloTreeSearchContinue::backed_up_result(0, true), 0);
}

#[test]
fn choose_move_decides_from_the_tree() {
    let mut engine = MonteCarloTreeSearchContinue::new(MCTSOptions::default());
    assert_eq!(engine.choose_move(&State::new(vec![])), Some(Move::new(7, 7)));
    let black = vec![Move::new(7, 7)];
    engine.change_cur_state(&State::new(black.clone()));
    for _ in 0..100 {
        engine.simulate_current();
    }
    let m = engine.choose_move(&State::new(black.clone())).unwrap();
    assert!(!black.contains(&m));
    assert_eq!(engine.choose_move(&State::new(vec![Move::new(7, 7), Move::new(0, 0), Move::new(1, 1)])), None);
}

#[test]
fn expansion_plays_out_exactly_one_child() {
    let options = MCTSOptions::default().with_rollouts_before_expanding(0);
    let mut tree = Tree::new();
    let mut s = scattered();
    Gomoku::apply(&mut s, &Move::new(7, 11));
    let r = MonteCarloTreeSearchContinue::simulate_once(&options, &mut tree, 0, &mut State::new(vec![]), false);
    assert!((-1..=1).contains(&r));
    assert!(tree.nodes[0].expansion.get().is_some());
    let e = *tree.nodes[0].expansion.get().unwrap();
    let visited: Vec<usize> = (e.first..e.first + e.len).filter(|&j| tree.nodes[j].visits > 0).collect();
    assert_eq!(visited.len(), 1);
    assert_eq!(tree.nodes[visited[0]].visits, 1);
    assert_eq!(tree.nodes[0].visits, 1);
    assert_eq!(RolloutPolicy::rollout(&options, &s), WIN);
}
