use kawio::ai::{AiConfig, MctsAi, AI};
use kawio::game::{Game, Move, Player};
use kawio::mcts::MCTS;

#[test]
fn test_search_returns_legal_opening() {
    let game = Game::new();
    let mut tree = MCTS::new(game, 1414, Some(1));
    let result = tree.search(120, 0);
    match result.best_move {
        Move::Place(pos) => assert!(game.is_valid_move(pos)),
        Move::Pass => panic!("search must place on a board with legal moves"),
    }
    assert!(result.telemetry.total_simulations > 0);
    // Every iteration of the budget adds a visit at the root.
    assert!(result.telemetry.total_simulations >= 120);
    assert_eq!(result.telemetry.visit_distribution.len(), 4);
}

#[test]
fn test_rollout_scored_for_expanded_node() {
    // Black to move with exactly one legal move, after which the game is
    // over with Black holding every disc. The rollout from the created
    // child ends at once, and its win must be credited to Black — the
    // player to move at the expanded node — so the child's empirical win
    // rate is a certain win.
    let game = Game {
        black: (1u64 << 0) | (1u64 << 1),
        white: 1u64 << 2,
        current_player: Player::Black,
        passes: 0,
    };
    assert_eq!(game.legal_moves(), vec![3]);
    let mut tree = MCTS::new(game, 1414, Some(1));
    let result = tree.search(1, 0);
    assert_eq!(result.best_move, Move::Place(3));
    assert_eq!(result.telemetry.visit_distribution, vec![1]);
    assert_eq!(result.telemetry.chosen_q_milli, 1000);
}

#[test]
fn test_search_zero_budget_reports_pass() {
    // A zero-iteration budget on a fresh, childless root has no data to
    // choose from: the search reports a pass and builds nothing.
    let mut tree = MCTS::new(Game::new(), 1414, Some(2));
    let result = tree.search(0, 0);
    assert_eq!(result.best_move, Move::Pass);
    assert_eq!(result.telemetry.total_simulations, 0);
    assert!(result.telemetry.visit_distribution.is_empty());
}

#[test]
fn test_search_deterministic_with_seed() {
    let game = Game::new();
    let mut a = MCTS::new(game, 1414, Some(42));
    let mut b = MCTS::new(game, 1414, Some(42));
    let ra = a.search(120, 0);
    let rb = b.search(120, 0);
    assert_eq!(ra.best_move, rb.best_move);
    assert_eq!(
        ra.telemetry.total_simulations,
        rb.telemetry.total_simulations
    );
    assert_eq!(ra.telemetry.chosen_q_milli, rb.telemetry.chosen_q_milli);
    assert_eq!(
        ra.telemetry.visit_distribution,
        rb.telemetry.visit_distribution
    );
}

#[test]
fn test_search_deterministic_with_temperature() {
    // Weighted sampling also draws from the seeded generator, so two
    // searches with the same seed pick the same move.
    let game = Game::new();
    let mut a = MCTS::new(game, 1414, Some(7));
    let mut b = MCTS::new(game, 1414, Some(7));
    let ra = a.search(80, 800);
    let rb = b.search(80, 800);
    assert_eq!(ra.best_move, rb.best_move);
    assert_eq!(
        ra.telemetry.visit_distribution,
        rb.telemetry.visit_distribution
    );
}

#[test]
fn test_advance_root_keeps_visit_counts() {
    let game = Game::new();
    let mut tree = MCTS::new(game, 1414, Some(5));
    let result = tree.search(120, 0);
    let before = result.telemetry;
    let played = result.best_move;
    let pos = match played {
        Move::Place(p) => p,
        Move::Pass => panic!("expected a placement"),
    };
    // Children are created in move-generation order, so the played move's
    // child sits at that move's index in the legal move list.
    let idx = game
        .legal_moves()
        .iter()
        .position(|&m| m == pos)
        .expect("best move is legal");
    assert!(tree.advance_root(played));
    // The surviving subtree keeps its accumulated visit counts: the new
    // root's total is exactly the visit count that child had before.
    let after = tree.compute_telemetry();
    assert_eq!(after.total_simulations, before.visit_distribution[idx]);
}

#[test]
fn test_advance_root_without_matching_child() {
    let game = Game::new();
    let mut tree = MCTS::new(game, 1414, Some(5));
    // No search has run, so the root has no children to advance into.
    assert!(!tree.advance_root(Move::Pass));
    assert_eq!(*tree.root_game(), game);
}

#[test]
fn test_search_on_terminal_board_reports_pass() {
    // A finished position: one disc in each far corner, no legal move for
    // either side. The search short-circuits to a pass with no children.
    let game = Game {
        black: 1u64 << 0,
        white: 1u64 << 63,
        current_player: Player::Black,
        passes: 0,
    };
    let mut tree = MCTS::new(game, 1414, Some(3));
    let result = tree.search(10, 0);
    assert_eq!(result.best_move, Move::Pass);
    // The search short-circuits: no iterations are performed.
    assert_eq!(result.telemetry.total_simulations, 0);
    assert!(result.telemetry.visit_distribution.is_empty());
    assert_eq!(result.telemetry.chosen_q_milli, 0);
}

#[test]
fn test_telemetry_matches_tree() {
    let mut tree = MCTS::new(Game::new(), 1414, Some(9));
    let r = tree.search(60, 0);
    let root = &tree.nodes[tree.root_index];
    assert_eq!(r.telemetry.total_simulations, root.visits);
    assert_eq!(r.telemetry.visit_distribution.len(), root.children.len());
    for (k, &c) in root.children.iter().enumerate() {
        assert_eq!(r.telemetry.visit_distribution[k], tree.nodes[c].visits);
    }
    // The chosen value is the first most-visited child's empirical win rate
    // in thousandths.
    let mut best = root.children[0];
    for &c in &root.children[1..] {
        if tree.nodes[c].visits > tree.nodes[best].visits {
            best = c;
        }
    }
    assert_eq!(
        r.telemetry.chosen_q_milli,
        (tree.nodes[best].wins as u64) * 1000 / (tree.nodes[best].visits as u64)
    );
    // The children account for no more simulations than the root ran.
    let dist_sum: u64 = r.telemetry.visit_distribution.iter().map(|&v| v as u64).sum();
    assert!(dist_sum <= r.telemetry.total_simulations as u64);
}

#[test]
fn test_ai_config_default() {
    let config = AiConfig::default();
    assert_eq!(config.simulations, 100);
    assert_eq!(config.exploration_milli, 1414);
    assert_eq!(config.temperature_milli, 0);
    assert_eq!(config.rng_seed, None);
}

#[test]
fn test_ai_get_move_is_legal() {
    let game = Game::new();
    let mv = AI::get_move(&game).expect("a move is always reported");
    match mv {
        Move::Place(pos) => assert!(game.is_valid_move(pos)),
        Move::Pass => panic!("the starting position has legal moves"),
    }
}

#[test]
fn test_ai_passes_without_moves() {
    let game = Game {
        black: 1u64 << 1,
        white: 1u64 << 0,
        current_player: Player::Black,
        passes: 0,
    };
    assert_eq!(AI::get_move(&game), Some(Move::Pass));
}

#[test]
fn test_mcts_ai_deterministic_with_seed() {
    let config = AiConfig {
        simulations: 120,
        exploration_milli: 1414,
        temperature_milli: 0,
        rng_seed: Some(11),
    };
    let game = Game::new();
    let mut a = MctsAi::new(config);
    let mut b = MctsAi::new(config);
    assert_eq!(a.get_move(&game), b.get_move(&game));
}

#[test]
fn test_mcts_ai_tree_reuse_across_turns() {
    let config = AiConfig {
        simulations: 100,
        exploration_milli: 1414,
        temperature_milli: 0,
        rng_seed: Some(13),
    };
    let mut ai = MctsAi::new(config);
    let mut game = Game::new();
    // Play a few turns, telling the AI which move was made each time.
    for _ in 0..4 {
        if game.is_game_over() {
            break;
        }
        let mv = ai.get_move(&game).expect("a move is always reported");
        match mv {
            Move::Place(pos) => {
                assert!(game.is_valid_move(pos));
                game.make_move(pos).unwrap();
            }
            Move::Pass => game.pass(),
        }
        ai.make_move(mv);
    }
    assert!(game.black.count_ones() + game.white.count_ones() >= 6);
    assert_eq!(game.black & game.white, 0);
}

#[test]
fn test_random_playout_reaches_valid_end() {
    // Drive a whole game with the one-shot planner and check the board
    // invariant after every transition.
    let config = AiConfig {
        simulations: 10,
        exploration_milli: 1414,
        temperature_milli: 0,
        rng_seed: Some(17),
    };
    let mut ai = MctsAi::new(config);
    let mut game = Game::new();
    let mut guard = 0;
    while !game.is_game_over() {
        let mv = ai.get_move(&game).expect("a move is always reported");
        match mv {
            Move::Place(pos) => game.make_move(pos).unwrap(),
            Move::Pass => game.pass(),
        }
        assert_eq!(game.black & game.white, 0);
        let (black, white) = game.disc_count();
        assert!(black + white <= 64);
        guard += 1;
        assert!(guard < 200, "a game ends within the move budget");
    }
    let (black, white) = game.disc_count();
    match game.winner() {
        Some(Player::Black) => assert!(black > white),
        Some(Player::White) => assert!(white > black),
        None => assert_eq!(black, white),
    }
}
