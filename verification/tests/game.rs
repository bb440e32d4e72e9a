use kawio::game::{Game, Player};

#[test]
fn test_new_game() {
    let game = Game::new();
    assert_eq!(game.black.count_ones(), 2);
    assert_eq!(game.white.count_ones(), 2);
    assert_eq!(game.current_player, Player::Black);
    assert_eq!(game.passes, 0);
}

#[test]
fn test_coord_conversion() {
    assert_eq!(Game::coord_to_pos("A1"), Ok(56)); // bottom-left
    assert_eq!(Game::coord_to_pos("H8"), Ok(7)); // top-right
    assert_eq!(Game::coord_to_pos("A8"), Ok(0)); // top-left
    assert_eq!(Game::coord_to_pos("H1"), Ok(63)); // bottom-right
    assert_eq!(Game::coord_to_pos("D3"), Ok(43)); // D col 3, row 3 -> row_index 8-3=5, 5*8+3=43
    assert_eq!(Game::coord_to_pos("a1"), Ok(56)); // lowercase
    assert!(Game::coord_to_pos("I1").is_err());
    assert!(Game::coord_to_pos("A9").is_err());
    assert!(Game::coord_to_pos("A").is_err());
}

#[test]
fn test_initial_moves() {
    let game = Game::new();
    let moves = game.legal_moves();
    assert_eq!(moves.len(), 4); // Standard Othello opening has 4 legal moves
    assert!(!moves.is_empty());
}

#[test]
fn test_make_move() {
    let mut game = Game::new();
    let moves = game.legal_moves();
    assert!(!moves.is_empty());
    let pos = moves[0];
    game.make_move(pos).unwrap();
    assert_eq!(game.current_player, Player::White);
    assert!(game.black.count_ones() > 2); // more black discs
    assert!(game.white.count_ones() < 2); // fewer white discs
}

#[test]
fn test_invalid_move() {
    let mut game = Game::new();
    // Try to place on occupied square
    let occupied_pos = 27; // center square held by white
    assert!(game.make_move(occupied_pos).is_err());
    // Try to place where no flips
    let no_flip_pos = 0; // corner, empty but no flips
    assert!(game.make_move(no_flip_pos).is_err());
    // Out of bounds
    assert!(game.make_move(64).is_err());
}

#[test]
fn test_game_over() {
    let game = Game::new();
    // Game is not over initially
    assert!(!game.is_game_over());
    // Game over when neither player has legal moves
    // For a new game, both have moves
    assert!(game.has_legal_move(Player::Black));
    assert!(game.has_legal_move(Player::White));
}

#[test]
fn test_invalid_move_messages() {
    let mut game = Game::new();
    assert_eq!(
        game.make_move(64),
        Err("Position out of bounds".to_string())
    );
    assert_eq!(
        game.make_move(27),
        Err("Square is already occupied".to_string())
    );
    assert_eq!(
        game.make_move(0),
        Err("Move does not flip any discs".to_string())
    );
    // A failed move leaves the board untouched.
    assert_eq!(game.black.count_ones(), 2);
    assert_eq!(game.white.count_ones(), 2);
    assert_eq!(game.current_player, Player::Black);
}

#[test]
fn test_coord_error_messages() {
    assert_eq!(
        Game::coord_to_pos("A"),
        Err("Coordinate must be exactly 2 characters".to_string())
    );
    assert_eq!(
        Game::coord_to_pos("D33"),
        Err("Coordinate must be exactly 2 characters".to_string())
    );
    assert_eq!(
        Game::coord_to_pos("I1"),
        Err("Column must be A-H".to_string())
    );
    assert_eq!(
        Game::coord_to_pos("11"),
        Err("Column must be A-H".to_string())
    );
    assert_eq!(Game::coord_to_pos("A9"), Err("Row must be 1-8".to_string()));
    assert_eq!(Game::coord_to_pos("A0"), Err("Row must be 1-8".to_string()));
}

#[test]
fn test_coord_round_trip_all_squares() {
    for pos in 0u8..64 {
        let label = Game::pos_to_coord(pos);
        assert_eq!(Game::coord_to_pos(&label), Ok(pos));
        // Lowercase labels parse to the same square.
        assert_eq!(Game::coord_to_pos(&label.to_lowercase()), Ok(pos));
    }
}

#[test]
fn test_pos_to_coord_corners() {
    assert_eq!(Game::pos_to_coord(56), "A1");
    assert_eq!(Game::pos_to_coord(7), "H8");
    assert_eq!(Game::pos_to_coord(0), "A8");
    assert_eq!(Game::pos_to_coord(63), "H1");
    assert_eq!(Game::pos_to_coord(43), "D3");
}

#[test]
fn test_forced_pass_not_terminal() {
    // Black holds square 1, White the corner at square 0: Black has no
    // placement, but White could capture the Black disc, so the game is not
    // over even though Black must pass.
    let game = Game {
        black: 1u64 << 1,
        white: 1u64 << 0,
        current_player: Player::Black,
        passes: 0,
    };
    assert!(game.legal_moves().is_empty());
    assert!(!game.has_legal_move(Player::Black));
    assert!(game.has_legal_move(Player::White));
    assert!(!game.is_game_over());
    assert_eq!(game.winner(), None);
}

#[test]
fn test_winner_and_tie() {
    // One disc in each far corner: nobody can move, equal counts, a tie.
    let tie = Game {
        black: 1u64 << 0,
        white: 1u64 << 63,
        current_player: Player::Black,
        passes: 0,
    };
    assert!(tie.is_game_over());
    assert_eq!(tie.winner(), None);
    assert_eq!(tie.disc_count(), (1, 1));

    // Two black discs against one white disc, no legal move for either side.
    let black_wins = Game {
        black: (1u64 << 0) | (1u64 << 1),
        white: 1u64 << 63,
        current_player: Player::Black,
        passes: 0,
    };
    assert!(black_wins.is_game_over());
    assert_eq!(black_wins.winner(), Some(Player::Black));

    // A game that is not over has no winner yet.
    assert_eq!(Game::new().winner(), None);
}

#[test]
fn test_pass_switches_and_counts() {
    let mut game = Game::new();
    game.pass();
    assert_eq!(game.current_player, Player::White);
    assert_eq!(game.passes, 1);
    game.pass();
    assert_eq!(game.current_player, Player::Black);
    assert_eq!(game.passes, 2);
    // A successful placement resets the counter.
    let moves = game.legal_moves();
    game.make_move(moves[0]).unwrap();
    assert_eq!(game.passes, 0);
}

#[test]
fn test_opening_moves_flip_one_disc() {
    // The four legal openings from the starting position, by their labels in
    // this coordinate scheme; each places one disc and flips exactly one.
    for label in ["D6", "C5", "F4", "E3"] {
        let mut game = Game::new();
        let pos = Game::coord_to_pos(label).unwrap();
        assert!(game.is_valid_move(pos), "{label} should be legal");
        assert_eq!(game.flips(pos).count_ones(), 1, "{label} flips one disc");
        game.make_move(pos).unwrap();
        let (black, white) = game.disc_count();
        assert_eq!((black, white), (4, 1), "{label} leaves 4 black, 1 white");
    }
    // The starting position has exactly these four legal moves.
    let game = Game::new();
    let mut labels: Vec<String> = game
        .legal_moves()
        .into_iter()
        .map(Game::pos_to_coord)
        .collect();
    labels.sort();
    assert_eq!(labels, vec!["C5", "D6", "E3", "F4"]);
}

#[test]
fn test_flips_bounded_by_opponent_discs() {
    // Every flipped disc was an opponent disc: the flip mask is a subset of
    // the opponent's mask, here for each legal opening move.
    let game = Game::new();
    for pos in game.legal_moves() {
        let f = game.flips(pos);
        assert_ne!(f, 0);
        assert_eq!(f & !game.white, 0); // black to move: flips only white discs
        assert_eq!(f & game.black, 0);
    }
}

#[test]
fn test_occupied_and_empty() {
    let game = Game::new();
    assert_eq!(game.occupied(), game.black | game.white);
    assert_eq!(game.empty(), !(game.black | game.white));
    assert_eq!(game.occupied().count_ones(), 4);
    assert_eq!(game.current_player.opponent(), Player::White);
}

#[test]
fn test_render_start_board() {
    let game = Game::new();
    let expected = "  A B C D E F G H\n\
                    8 . . . . . . . . \n\
                    7 . . . . . . . . \n\
                    6 . . . . . . . . \n\
                    5 . . . W B . . . \n\
                    4 . . . B W . . . \n\
                    3 . . . . . . . . \n\
                    2 . . . . . . . . \n\
                    1 . . . . . . . . \n";
    assert_eq!(game.render(), expected);
}

#[test]
fn test_game_to_board_cells() {
    let game = Game::new();
    let board = kawio::game::game_to_board(&game);
    assert_eq!(board.len(), 8);
    for row in &board {
        assert_eq!(row.len(), 8);
    }
    assert_eq!(board[3][3], "W"); // square 27
    assert_eq!(board[3][4], "B"); // square 28
    assert_eq!(board[4][3], "B"); // square 35
    assert_eq!(board[4][4], "W"); // square 36
    assert_eq!(board[0][0], ".");
}
