use minesweeper::board::ExternalCell;
use minesweeper::registry::{
    CreateGame, GameConfig, GameHandler, GetGameState, GetGameStateError, JoinGame,
    JoinGameError, MoveError, PlayerAction, PlayerMove,
};

fn new_game(handler: &mut GameHandler, board_size: usize, player_limit: usize) -> u16 {
    handler
        .create_game(CreateGame {
            board_size,
            player_limit,
        })
        .expect("generate a random code not already present")
}

fn join(handler: &mut GameHandler, game_code: u16, name: &str) -> u16 {
    handler
        .join_game(JoinGame::new(game_code, name.to_string()))
        .ok()
        .expect("join should succeed")
}

#[test]
fn can_create_game() {
    let mut game_handler = GameHandler::default();

    let result = game_handler.create_game(CreateGame {
        board_size: 8,
        player_limit: 3,
    });

    assert!(result.is_ok());

    let id = result.unwrap();

    assert_eq!(game_handler.game_count(), 1);

    let config = *game_handler.get_game(id).unwrap().config();

    assert_eq!(
        config,
        GameConfig {
            board_size: 8,
            player_limit: 3
        }
    );
}

#[test]
fn codes_are_fresh_across_repeated_creates() {
    let mut handler = GameHandler::default();
    for expected in 1..=20 {
        new_game(&mut handler, 3, 2);
        assert_eq!(handler.game_count(), expected);
    }
}

#[test]
fn player_codes_are_fresh_within_a_game() {
    let mut handler = GameHandler::default();
    let game = new_game(&mut handler, 4, 3);
    let p1 = join(&mut handler, game, "one");
    let p2 = join(&mut handler, game, "two");
    assert_ne!(p1, p2);
    assert_eq!(handler.get_game(game).unwrap().player_count(), 2);
}

#[test]
fn join_unknown_game_fails() {
    let mut handler = GameHandler::default();
    let result = handler.join_game(JoinGame::new(7, "nobody".to_string()));
    assert!(matches!(result, Err(JoinGameError::GameNotFound)));
}

#[test]
fn join_beyond_player_limit_fails_and_inserts_nobody() {
    let mut handler = GameHandler::default();
    let game = new_game(&mut handler, 4, 1);
    let _p1 = join(&mut handler, game, "first");
    assert_eq!(handler.get_game(game).unwrap().player_count(), 1);

    let refused = handler.join_game(JoinGame::new(game, "second".to_string()));
    assert!(matches!(refused, Err(JoinGameError::GameFull)));
    assert_eq!(handler.get_game(game).unwrap().player_count(), 1);
}

#[test]
fn move_on_unknown_game_fails() {
    let mut handler = GameHandler::default();
    let result = handler.apply_move(PlayerMove {
        game_code: 1,
        player_code: 2,
        action: PlayerAction::Flag { index: 0 },
    });
    assert!(matches!(result, Err(MoveError::NoSuchGame)));
}

#[test]
fn move_by_unknown_player_fails() {
    let mut handler = GameHandler::default();
    let game = new_game(&mut handler, 4, 2);
    let player = join(&mut handler, game, "someone");
    let result = handler.apply_move(PlayerMove {
        game_code: game,
        player_code: player.wrapping_add(1),
        action: PlayerAction::Flag { index: 0 },
    });
    assert!(matches!(result, Err(MoveError::NoSuchPlayer)));
}

#[test]
fn invalid_board_move_is_reported() {
    let mut handler = GameHandler::default();
    let game = new_game(&mut handler, 4, 2);
    let player = join(&mut handler, game, "someone");

    // Out-of-bounds index.
    let oob = handler.apply_move(PlayerMove {
        game_code: game,
        player_code: player,
        action: PlayerAction::Flag { index: 16 },
    });
    assert!(matches!(oob, Err(MoveError::InvalidMove)));

    // Flagging a revealed cell.
    assert!(handler
        .apply_move(PlayerMove {
            game_code: game,
            player_code: player,
            action: PlayerAction::Reveal { index: 0 },
        })
        .is_ok());
    let refused = handler.apply_move(PlayerMove {
        game_code: game,
        player_code: player,
        action: PlayerAction::Flag { index: 0 },
    });
    assert!(matches!(refused, Err(MoveError::InvalidMove)));
}

#[test]
fn fetch_state_reports_missing_codes() {
    let mut handler = GameHandler::default();
    assert!(matches!(
        handler.get_game_state(GetGameState {
            game_code: 9,
            player_code: 9
        }),
        Err(GetGameStateError::GameNotFound)
    ));

    let game = new_game(&mut handler, 4, 2);
    let player = join(&mut handler, game, "someone");
    assert!(matches!(
        handler.get_game_state(GetGameState {
            game_code: game,
            player_code: player.wrapping_add(1)
        }),
        Err(GetGameStateError::PlayerNotFound)
    ));
}

#[test]
fn fetch_state_returns_snapshot() {
    let mut handler = GameHandler::default();
    let game = new_game(&mut handler, 5, 2);
    let player = join(&mut handler, game, "someone");

    let state = handler
        .get_game_state(GetGameState {
            game_code: game,
            player_code: player,
        })
        .ok()
        .unwrap();

    assert_eq!(state.board_size, 5);
    assert_eq!(state.board_state.len(), 25);
    assert!(state.start_time.is_some());
    assert!(state.finished_time.is_none());
    for cell in &state.board_state {
        assert_eq!(*cell, ExternalCell::Unrevealed);
    }
}

#[test]
fn players_boards_stay_independent() {
    let mut handler = GameHandler::default();
    let game = new_game(&mut handler, 4, 2);
    let p1 = join(&mut handler, game, "one");
    let p2 = join(&mut handler, game, "two");

    assert!(handler
        .apply_move(PlayerMove {
            game_code: game,
            player_code: p1,
            action: PlayerAction::Flag { index: 0 },
        })
        .is_ok());
    assert!(handler
        .apply_move(PlayerMove {
            game_code: game,
            player_code: p2,
            action: PlayerAction::Flag { index: 5 },
        })
        .is_ok());

    let s1 = handler
        .get_game_state(GetGameState {
            game_code: game,
            player_code: p1,
        })
        .ok()
        .unwrap();
    let s2 = handler
        .get_game_state(GetGameState {
            game_code: game,
            player_code: p2,
        })
        .ok()
        .unwrap();

    assert_eq!(s1.board_state[0], ExternalCell::Flagged);
    assert_eq!(s1.board_state[5], ExternalCell::Unrevealed);
    assert_eq!(s2.board_state[5], ExternalCell::Flagged);
    assert_eq!(s2.board_state[0], ExternalCell::Unrevealed);
}
