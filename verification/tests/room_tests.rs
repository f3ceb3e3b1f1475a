use poker_engine::game::{GamePhase, PlayerAction as EngineAction, PlayerStatus};
use poker_engine::game_manager::{
    game_id_string, GameManager, GameRoom, DEFAULT_STACK, LOG_WINDOW, MAX_STRIKES,
    TURN_TIMEOUT_SECS,
};
use poker_engine::auth::{create_token, verify_token, Claims};
use poker_engine::models::{
    action_to_string, card_to_string, cards_to_strings, default_player_type, phase_to_string,
    CreateGameRequest, JoinGameRequest, PlayerAction, PlayerType, SubmitActionRequest,
};
use poker_engine::{Card, Rank, Suit};
use std::time::{Duration, SystemTime};

fn claims(player: &str, game: u128) -> Result<Claims, String> {
    Ok(Claims {
        player_id: player.to_string(),
        game_id: game_id_string(game),
        exp: 0,
    })
}

fn request(token: &str, action: PlayerAction) -> SubmitActionRequest {
    SubmitActionRequest {
        auth_token: token.to_string(),
        action,
    }
}

fn room_with(names: &[&str]) -> GameRoom {
    let mut room = GameRoom::new(7, "Table".to_string(), 6, 500, 10, 20);
    for name in names {
        room.add_player(format!("{}_id", name), name.to_string(), PlayerType::Human)
            .unwrap();
    }
    room
}

fn started(names: &[&str]) -> GameRoom {
    let mut room = room_with(names);
    room.start_game().unwrap();
    room
}

fn on_turn(room: &GameRoom) -> String {
    room.state.players[room.state.current_player].id.clone()
}

fn overdue(room: &mut GameRoom) {
    room.last_action_time = SystemTime::now() - Duration::from_secs(TURN_TIMEOUT_SECS + 1);
}

#[test]
fn test_multiple_games_isolation() {
    let mut manager = GameManager::new();

    let req_a = CreateGameRequest {
        name: "Game A".to_string(),
        max_players: 2,
        starting_chips: 1000,
        small_blind: 10,
        big_blind: 20,
    };
    let resp_a = manager.create_game(req_a).unwrap();
    let game_id_a = resp_a.game_id;

    let req_b = CreateGameRequest {
        name: "Game B".to_string(),
        max_players: 2,
        starting_chips: 1000,
        small_blind: 10,
        big_blind: 20,
    };
    let resp_b = manager.create_game(req_b).unwrap();
    let game_id_b = resp_b.game_id;

    assert_ne!(game_id_a, game_id_b);

    let join_a = JoinGameRequest {
        bot_name: "Alice".to_string(),
        player_type: PlayerType::Human,
        bot_secret: None,
    };
    let p_a = manager.join_game(game_id_a, join_a).unwrap();

    let join_b = JoinGameRequest {
        bot_name: "Bob".to_string(),
        player_type: PlayerType::Human,
        bot_secret: None,
    };
    let p_b = manager.join_game(game_id_b, join_b).unwrap();

    let state_b = manager.get_game_state(game_id_b, &p_b.player_id).unwrap();
    assert!(state_b.players.iter().all(|p| p.id != p_a.player_id));

    let state_a = manager.get_game_state(game_id_a, &p_a.player_id).unwrap();
    assert!(state_a.players.iter().all(|p| p.id != p_b.player_id));

    let action_request = SubmitActionRequest {
        auth_token: p_a.auth_token.clone(),
        action: PlayerAction::Fold,
    };
    let res = manager.submit_action(game_id_b, action_request);
    assert!(res.is_err());
    assert_eq!(res.unwrap_err(), "Token invalide pour cette partie");
}

#[test]
fn game_identities_are_written_in_groups_of_hexadecimal_digits() {
    assert_eq!(
        game_id_string(0xa1a2a3a4b1b2c1c2d1d2d3d4d5d6d7d8),
        "a1a2a3a4-b1b2-c1c2-d1d2-d3d4d5d6d7d8"
    );
    assert_eq!(game_id_string(0), "00000000-0000-0000-0000-000000000000");
    assert_eq!(game_id_string(0x1f), "00000000-0000-0000-0000-00000000001f");
    assert_eq!(
        game_id_string(u128::MAX),
        "ffffffff-ffff-ffff-ffff-ffffffffffff"
    );
}

#[test]
fn new_games_get_random_identities_of_version_four() {
    let mut manager = GameManager::default();
    let mut seen = Vec::new();
    for i in 0..5 {
        let created = manager
            .create_game(CreateGameRequest {
                name: format!("Game {}", i),
                max_players: 4,
                starting_chips: 1000,
                small_blind: 10,
                big_blind: 20,
            })
            .unwrap();
        assert_eq!(created.name, format!("Game {}", i));
        assert_eq!((created.game_id >> 76) & 0xf, 4);
        assert_eq!((created.game_id >> 62) & 0x3, 2);
        assert!(!seen.contains(&created.game_id));
        seen.push(created.game_id);
    }
    let list = manager.list_games();
    assert_eq!(list.games.len(), 5);
    for (i, summary) in list.games.iter().enumerate() {
        assert_eq!(summary.game_id, seen[i]);
        assert_eq!(summary.name, format!("Game {}", i));
        assert_eq!(summary.player_count, 0);
        assert_eq!(summary.max_players, 4);
        assert_eq!(summary.phase, "preflop");
        assert_eq!(summary.pot, 0);
    }
}

#[test]
fn a_game_made_under_a_used_identity_takes_the_place_of_the_old_one() {
    let mut manager = GameManager::new();
    let request = |name: &str| CreateGameRequest {
        name: name.to_string(),
        max_players: 4,
        starting_chips: 1000,
        small_blind: 10,
        big_blind: 20,
    };
    manager.create_game_with_id(1, request("first"));
    manager.create_game_with_id(2, request("second"));
    manager.join_game_as(1, "a".to_string(), "Ann".to_string(), PlayerType::Human).unwrap();
    let created = manager.create_game_with_id(1, request("third"));
    assert_eq!(created.game_id, 1);
    let list = manager.list_games();
    assert_eq!(list.games.len(), 2);
    assert_eq!(list.games[0].name, "third");
    assert_eq!(list.games[0].player_count, 0);
    assert_eq!(list.games[1].name, "second");
    assert!(manager.get_game(3).is_none());
    assert_eq!(manager.get_game(2).unwrap().name, "second");
}

#[test]
fn joining_gives_seats_in_order_with_the_stack_of_the_first() {
    let mut room = GameRoom::new(7, "Table".to_string(), 3, 500, 10, 20);
    assert_eq!(room.id, 7);
    assert_eq!(room.max_players, 3);
    assert!(!room.started);
    assert!(!room.game_finished);
    assert_eq!(room.state.small_blind, 10);
    assert_eq!(room.state.big_blind, 20);
    assert_eq!(
        room.add_player("a".to_string(), "Ann".to_string(), PlayerType::Human),
        Ok(0)
    );
    assert_eq!(
        room.add_player("b".to_string(), "Ben".to_string(), PlayerType::Bot),
        Ok(1)
    );
    assert_eq!(room.state.players[0].chips, DEFAULT_STACK);
    assert_eq!(room.state.players[1].chips, 1000);
    assert_eq!(room.state.players[1].id, "b");
    assert_eq!(room.state.players[1].name, "Ben");
    assert_eq!(room.player_names, vec!["Ann".to_string(), "Ben".to_string()]);
    assert_eq!(room.player_types, vec![PlayerType::Human, PlayerType::Bot]);
    assert_eq!(room.player_timeout_strikes, vec![0, 0]);
    assert_eq!(room.state.players_acted, vec![false, false]);
    assert_eq!(
        room.add_player("a".to_string(), "Again".to_string(), PlayerType::Human),
        Err("Ce joueur est déjà dans la partie".to_string())
    );
    assert_eq!(
        room.add_player("c".to_string(), "Cat".to_string(), PlayerType::Human),
        Ok(2)
    );
    assert_eq!(
        room.add_player("d".to_string(), "Dan".to_string(), PlayerType::Human),
        Err("La partie est pleine".to_string())
    );
    assert_eq!(room.state.players.len(), 3);
    room.start_game().unwrap();
    assert_eq!(
        room.add_player("e".to_string(), "Eve".to_string(), PlayerType::Human),
        Err("La partie a déjà commencé".to_string())
    );
    assert_eq!(room.player_name(&"b".to_string()), Some("Ben".to_string()));
    assert_eq!(room.player_name(&"z".to_string()), None);
}

#[test]
fn a_room_takes_no_more_players_than_a_table_has_seats() {
    let mut room = GameRoom::new(7, "Big".to_string(), 100, 500, 10, 20);
    for i in 0..22 {
        assert_eq!(
            room.add_player(format!("p{}", i), format!("P{}", i), PlayerType::Bot),
            Ok(i)
        );
    }
    assert_eq!(
        room.add_player("late".to_string(), "Late".to_string(), PlayerType::Bot),
        Err("La partie est pleine".to_string())
    );
    room.start_game().unwrap();
    assert!(room.state.players.iter().all(|p| p.hole_cards.len() == 2));
    assert_eq!(room.state.deck.remaining(), 8);
}

#[test]
fn starting_needs_two_players_and_happens_once() {
    let mut room = room_with(&["Ann"]);
    assert_eq!(
        room.start_game(),
        Err("Il faut au moins 2 joueurs pour commencer".to_string())
    );
    assert!(!room.started);
    room.add_player("b".to_string(), "Ben".to_string(), PlayerType::Bot).unwrap();
    assert_eq!(room.start_game(), Ok(()));
    assert!(room.started);
    assert_eq!(room.state.pot, 30);
    assert_eq!(room.state.phase, GamePhase::PreFlop);
    assert_eq!(room.start_game(), Err("La partie a déjà commencé".to_string()));
    let summary = room.get_summary();
    assert_eq!(summary.game_id, 7);
    assert_eq!(summary.name, "Table");
    assert_eq!(summary.player_count, 2);
    assert_eq!(summary.max_players, 6);
    assert_eq!(summary.phase, "preflop");
    assert_eq!(summary.pot, 30);
}

#[test]
fn a_player_is_shown_their_own_cards_and_no_others() {
    let room = started(&["Ann", "Ben", "Cat"]);
    for viewer in ["Ann_id", "Ben_id", "Cat_id", "stranger"] {
        let shown = room.get_state_for_player(&viewer.to_string());
        assert_eq!(shown.players.len(), 3);
        for (seat, info) in shown.players.iter().enumerate() {
            let player = &room.state.players[seat];
            assert_eq!(info.id, player.id);
            assert_eq!(info.name, room.player_names[seat]);
            assert_eq!(info.chips, player.chips);
            assert_eq!(info.current_bet, player.current_bet);
            assert_eq!(info.status, "Active");
            assert_eq!(info.player_type, PlayerType::Human);
            if info.id == viewer {
                assert_eq!(info.cards, Some(cards_to_strings(&player.hole_cards)));
                assert_eq!(shown.your_cards, info.cards);
                assert_eq!(shown.your_chips, Some(player.chips));
            } else {
                assert_eq!(info.cards, None);
            }
        }
        assert_eq!(shown.your_player_id, Some(viewer.to_string()));
        if viewer == "stranger" {
            assert_eq!(shown.your_cards, None);
            assert_eq!(shown.your_chips, None);
        }
        assert_eq!(shown.game_id, 7);
        assert_eq!(shown.phase, "preflop");
        assert_eq!(shown.pot, 30);
        assert_eq!(shown.current_bet, 20);
        assert!(shown.community_cards.is_empty());
        assert_eq!(shown.current_player_id, Some("Ben_id".to_string()));
        if viewer == "Ben_id" {
            assert_eq!(shown.valid_actions, vec!["fold", "call", "raise", "allin"]);
        } else {
            assert!(shown.valid_actions.is_empty());
        }
        assert!(!shown.game_finished);
        assert_eq!(shown.winner_id, None);
        assert_eq!(shown.winner_name, None);
        assert_eq!(shown.action_log, Some(vec![]));
        assert_eq!(shown.last_hand_winner, None);
        assert_eq!(shown.last_hand_winner_name, None);
        assert_eq!(shown.last_hand_amount, None);
        assert_eq!(shown.last_hand_description, None);
        assert_eq!(shown.last_hand_cards, None);
    }
}

#[test]
fn before_the_start_nobody_is_on_turn() {
    let room = room_with(&["Ann", "Ben"]);
    let shown = room.get_state_for_player(&"Ann_id".to_string());
    assert_eq!(shown.current_player_id, None);
    assert!(shown.valid_actions.is_empty());
    assert_eq!(shown.your_cards, Some(vec![]));
    assert_eq!(shown.your_chips, Some(1000));
}

#[test]
fn the_log_shown_holds_the_latest_entries() {
    let mut room = started(&["Ann", "Ben"]);
    for i in 0..(LOG_WINDOW + 7) {
        room.action_log.push(format!("entry {}", i));
    }
    let shown = room.get_state_for_player(&"Ann_id".to_string());
    let log = shown.action_log.unwrap();
    assert_eq!(log.len(), 50);
    assert_eq!(log[0], "entry 7");
    assert_eq!(log[49], "entry 56");
}

#[test]
fn a_finished_game_shows_the_stack_of_the_winner_as_the_pot() {
    let mut room = started(&["Ann", "Ben"]);
    room.game_finished = true;
    room.winner_id = Some("Ben_id".to_string());
    room.last_hand_winner = Some("Ann_id".to_string());
    room.last_hand_amount = Some(40);
    room.last_hand_description = Some("Main gagnante".to_string());
    room.last_hand_cards = Some(vec!["A♠".to_string(), "K♠".to_string()]);
    let shown = room.get_state_for_player(&"Ann_id".to_string());
    assert!(shown.game_finished);
    assert_eq!(shown.pot, room.state.players[1].chips);
    assert_eq!(shown.winner_id, Some("Ben_id".to_string()));
    assert_eq!(shown.winner_name, Some("Ben".to_string()));
    assert_eq!(shown.last_hand_winner, Some("Ann_id".to_string()));
    assert_eq!(shown.last_hand_winner_name, Some("Ann".to_string()));
    assert_eq!(shown.last_hand_amount, Some(40));
    assert_eq!(shown.last_hand_description, Some("Main gagnante".to_string()));
    assert_eq!(
        shown.last_hand_cards,
        Some(vec!["A♠".to_string(), "K♠".to_string()])
    );
    room.winner_id = Some("gone".to_string());
    let shown = room.get_state_for_player(&"Ann_id".to_string());
    assert_eq!(shown.pot, room.state.pot);
    assert_eq!(shown.winner_name, None);
}

#[test]
fn actions_are_written_to_the_log_of_the_room() {
    let mut room = started(&["Ann", "Ben", "Cat"]);
    let answer = room.submit(&"Ben_id".to_string(), PlayerAction::Call).unwrap();
    assert!(answer.success);
    assert_eq!(answer.error, None);
    let answer = room
        .submit(&"Cat_id".to_string(), PlayerAction::Raise { amount: 40 })
        .unwrap();
    assert!(answer.success);
    let answer = room.submit(&"Ann_id".to_string(), PlayerAction::Check).unwrap();
    assert!(!answer.success);
    assert_eq!(
        answer.error,
        Some("Impossible de checker, il faut suivre ou se coucher".to_string())
    );
    let answer = room.submit(&"nobody".to_string(), PlayerAction::AllIn).unwrap();
    assert!(!answer.success);
    assert_eq!(answer.error, Some("Joueur non trouvé".to_string()));
    let answer = room.submit(&"Ann_id".to_string(), PlayerAction::Fold).unwrap();
    assert!(answer.success);
    assert_eq!(
        room.action_log,
        vec![
            "[preflop] Ben -> CALL (20)".to_string(),
            "[preflop] Cat -> RAISE (40)".to_string(),
            "[preflop] Ann -> CHECK".to_string(),
            "[preflop] nobody -> ALL-IN".to_string(),
            "[preflop] Ann -> FOLD".to_string(),
        ]
    );
    assert_eq!(
        room.state.action_log,
        vec![
            "Ben calls 20".to_string(),
            "Cat raises to 60".to_string(),
            "Ann folds".to_string(),
        ]
    );
    assert_eq!(room.state.pot, 100);
}

#[test]
fn no_action_is_taken_before_the_start_or_after_the_end() {
    let mut room = room_with(&["Ann", "Ben"]);
    assert_eq!(
        room.submit(&"Ann_id".to_string(), PlayerAction::Fold).unwrap_err(),
        "La partie n'a pas encore commencé"
    );
    room.start_game().unwrap();
    room.game_finished = true;
    assert_eq!(
        room.submit(&"Ann_id".to_string(), PlayerAction::Fold).unwrap_err(),
        "La partie est terminée"
    );
    assert!(room.action_log.is_empty());
}

#[test]
fn a_raise_beyond_what_the_table_bet_can_hold_is_refused() {
    let mut room = started(&["Ann", "Ben"]);
    let id = on_turn(&room);
    let answer = room
        .submit(&id, PlayerAction::Raise { amount: u32::MAX - 10 })
        .unwrap();
    assert!(!answer.success);
    assert_eq!(
        answer.error,
        Some(format!("Raise trop grand. Maximum: {}", u32::MAX - 20))
    );
    assert_eq!(room.state.current_bet, 20);
    assert_eq!(room.state.pot, 30);
    let answer = room
        .submit(&id, PlayerAction::Raise { amount: u32::MAX - 20 })
        .unwrap();
    assert!(answer.success);
    assert_eq!(room.state.action_log, vec!["Ann raises to 4294967295".to_string()]);
    assert_eq!(room.state.players[0].status, PlayerStatus::AllIn);
    assert_eq!(room.state.pot, 1020);
    assert_eq!(room.state.phase, GamePhase::Flop);
}

#[test]
fn the_game_is_over_when_one_seat_alone_has_chips() {
    let mut room = started(&["Ann", "Ben"]);
    assert_eq!(on_turn(&room), "Ann_id");
    assert!(room.submit(&"Ann_id".to_string(), PlayerAction::Call).unwrap().success);
    assert!(!room.game_finished);
    assert_eq!(room.winner_id, None);
    assert!(room.submit(&"Ben_id".to_string(), PlayerAction::AllIn).unwrap().success);
    assert!(room.game_finished);
    assert_eq!(room.winner_id, Some("Ann_id".to_string()));
    assert_eq!(room.state.players[1].chips, 0);
    assert_eq!(room.state.players[0].chips, 980);
    assert_eq!(room.state.pot, 1020);
    let shown = room.get_state_for_player(&"Ben_id".to_string());
    assert!(shown.game_finished);
    assert_eq!(shown.pot, 980);
    assert_eq!(shown.winner_id, Some("Ann_id".to_string()));
    assert_eq!(shown.winner_name, Some("Ann".to_string()));
    assert_eq!(
        room.submit(&"Ann_id".to_string(), PlayerAction::Call).unwrap_err(),
        "La partie est terminée"
    );
}

#[test]
fn an_action_forgets_the_timeouts_of_the_seat() {
    let mut room = started(&["Ann", "Ben", "Cat"]);
    let seat = room.state.current_player;
    room.player_timeout_strikes[seat] = 2;
    let id = on_turn(&room);
    assert!(room.submit(&id, PlayerAction::Call).unwrap().success);
    assert_eq!(room.player_timeout_strikes[seat], 0);
}

#[test]
fn nothing_times_out_within_the_time_for_a_turn() {
    let mut room = room_with(&["Ann", "Ben", "Cat"]);
    assert!(!room.check_timeouts());
    overdue(&mut room);
    assert!(!room.check_timeouts());
    room.start_game().unwrap();
    assert!(!room.check_timeouts());
    assert!(!room.check_timeouts_after(Some((30, 0)), SystemTime::now()));
    assert!(!room.check_timeouts_after(Some((29, 999_999_999)), SystemTime::now()));
    assert!(!room.check_timeouts_after(None, SystemTime::now()));
    assert!(room.action_log.is_empty());
    room.game_finished = true;
    overdue(&mut room);
    assert!(!room.check_timeouts());
    assert!(!room.check_timeouts_after(Some((31, 0)), SystemTime::now()));
}

#[test]
fn a_turn_that_takes_too_long_is_folded() {
    let mut room = started(&["Ann", "Ben", "Cat"]);
    assert_eq!(room.state.current_player, 1);
    overdue(&mut room);
    assert!(room.check_timeouts());
    assert_eq!(room.player_timeout_strikes, vec![0, 1, 0]);
    assert_eq!(room.state.players[1].status, PlayerStatus::Folded);
    assert_eq!(room.state.current_player, 2);
    assert_eq!(room.action_log, vec!["⏰ Ben timeout (fold) [1/3]".to_string()]);
    assert_eq!(room.state.action_log, vec!["Ben folds".to_string()]);
    assert!(!room.check_timeouts());
    assert!(room.check_timeouts_after(Some((30, 1)), SystemTime::now()));
    assert_eq!(room.player_timeout_strikes, vec![0, 1, 1]);
    assert_eq!(room.action_log[1], "⏰ Cat timeout (fold) [1/3]");
    assert!(!room.game_finished);
}

#[test]
fn three_timeouts_in_a_row_put_a_player_out_of_the_game() {
    let mut room = started(&["Ann", "Ben", "Cat"]);
    room.player_timeout_strikes[1] = MAX_STRIKES - 1;
    assert!(room.check_timeouts_after(Some((45, 0)), SystemTime::now()));
    assert_eq!(room.player_timeout_strikes[1], 3);
    assert_eq!(room.state.players[1].status, PlayerStatus::Eliminated);
    assert_eq!(
        room.action_log,
        vec!["🚫 Ben ejected (too many timeouts)".to_string()]
    );
    assert_eq!(room.state.action_log, vec!["Ben folds".to_string()]);
    assert_eq!(room.state.current_player, 2);
    assert_eq!(room.state.phase, GamePhase::PreFlop);
    assert!(!room.game_finished);
    assert_eq!(
        room.submit(&"Ben_id".to_string(), PlayerAction::Call).unwrap().error,
        Some("Ce n'est pas le tour de ce joueur".to_string())
    );
    assert!(room.submit(&"Cat_id".to_string(), PlayerAction::Call).unwrap().success);
    assert_eq!(room.state.current_player, 0);
}

#[test]
fn the_third_timeout_of_one_of_two_players_ends_the_game() {
    let mut room = started(&["Ann", "Ben"]);
    assert_eq!(room.state.current_player, 0);
    room.player_timeout_strikes[0] = 2;
    assert!(room.check_timeouts_after(Some((31, 0)), SystemTime::now()));
    assert_eq!(room.player_timeout_strikes[0], 3);
    assert!(room.game_finished);
    assert_eq!(room.winner_id, Some("Ben_id".to_string()));
    assert_eq!(
        room.state.players[0].chips + room.state.players[1].chips + room.state.pot,
        2000
    );
    assert!(!room.check_timeouts_after(Some((31, 0)), SystemTime::now()));
    assert_eq!(
        room.submit(&"Ben_id".to_string(), PlayerAction::Call).unwrap_err(),
        "La partie est terminée"
    );
}

#[test]
fn a_timeout_that_the_table_refuses_is_counted_and_nothing_more() {
    let mut room = started(&["Ann", "Ben", "Cat"]);
    room.state.players[1].status = PlayerStatus::AllIn;
    let pot = room.state.pot;
    assert!(room.check_timeouts_after(Some((31, 0)), SystemTime::now()));
    assert_eq!(room.player_timeout_strikes, vec![0, 1, 0]);
    assert_eq!(room.action_log, vec!["⏰ Ben timeout (fold) [1/3]".to_string()]);
    assert!(room.state.action_log.is_empty());
    assert_eq!(room.state.players[1].status, PlayerStatus::AllIn);
    assert_eq!(room.state.current_player, 1);
    assert_eq!(room.state.pot, pot);
}

#[test]
fn the_time_of_the_last_action_is_kept() {
    let start = SystemTime::UNIX_EPOCH + Duration::from_secs(1000);
    let mut room = GameRoom::new_at(7, "Table".to_string(), 6, 500, 10, 20, start);
    assert_eq!(room.last_action_time, start);
    room.add_player("a".to_string(), "Ann".to_string(), PlayerType::Human).unwrap();
    assert!(room.start_game_at(start + Duration::from_secs(1)).is_err());
    assert_eq!(room.last_action_time, start);
    room.add_player("b".to_string(), "Ben".to_string(), PlayerType::Human).unwrap();
    room.start_game_at(start + Duration::from_secs(2)).unwrap();
    assert_eq!(room.last_action_time, start + Duration::from_secs(2));
    let refused = room
        .submit_at(&"b".to_string(), PlayerAction::Call, start + Duration::from_secs(3))
        .unwrap();
    assert!(!refused.success);
    assert_eq!(room.last_action_time, start + Duration::from_secs(2));
    let taken = room
        .submit_at(&"a".to_string(), PlayerAction::Call, start + Duration::from_secs(4))
        .unwrap();
    assert!(taken.success);
    assert_eq!(room.last_action_time, start + Duration::from_secs(4));
    assert!(!room.check_timeouts_after(Some((5, 0)), start + Duration::from_secs(9)));
    assert_eq!(room.last_action_time, start + Duration::from_secs(4));
    assert!(room.check_timeouts_after(Some((31, 0)), start + Duration::from_secs(35)));
    assert_eq!(room.last_action_time, start + Duration::from_secs(35));
}

#[test]
fn a_hand_that_goes_to_showdown_is_noted_as_the_last_hand() {
    let mut room = started(&["Ann", "Ben"]);
    assert!(room.submit(&"Ann_id".to_string(), PlayerAction::Call).unwrap().success);
    assert!(room.submit(&"Ben_id".to_string(), PlayerAction::Check).unwrap().success);
    for _ in 0..2 {
        assert!(room.submit(&"Ann_id".to_string(), PlayerAction::Check).unwrap().success);
        assert!(room.submit(&"Ben_id".to_string(), PlayerAction::Check).unwrap().success);
    }
    assert_eq!(room.state.phase, GamePhase::River);
    assert!(room.submit(&"Ann_id".to_string(), PlayerAction::Check).unwrap().success);
    assert_eq!(room.last_hand_winner, None);
    let mut winner = 0;
    let mut best: Option<poker_engine::Hand> = None;
    for (seat, player) in room.state.players.iter().enumerate() {
        let mut cards = player.hole_cards.clone();
        cards.extend(room.state.community_cards.iter().copied());
        let hand = poker_engine::Hand::evaluate(&cards);
        if best.as_ref().map_or(true, |b| hand.compare(b) >= 0) {
            best = Some(hand);
            winner = seat;
        }
    }
    let cards = cards_to_strings(&room.state.players[winner].hole_cards);
    let stack = room.state.players[winner].chips;
    assert_eq!(room.state.pot, 40);
    assert!(room.submit(&"Ben_id".to_string(), PlayerAction::Check).unwrap().success);
    assert_eq!(room.last_hand_winner, Some(room.state.players[winner].id.clone()));
    assert_eq!(room.last_hand_amount, Some(40));
    assert_eq!(room.last_hand_description, Some("Main gagnante".to_string()));
    assert_eq!(room.last_hand_cards, Some(cards));
    assert_eq!(
        room.action_log.last(),
        Some(&"[SHOWDOWN] Nouveau tour commence".to_string())
    );
    assert_eq!(room.state.phase, GamePhase::PreFlop);
    assert_eq!(
        room.state.players[winner].chips + room.state.players[winner].current_bet,
        stack + 40
    );
    let shown = room.get_state_for_player(&"Ann_id".to_string());
    assert_eq!(shown.last_hand_amount, Some(40));
    assert_eq!(
        shown.last_hand_winner_name,
        Some(room.state.players[winner].name.clone())
    );
}

#[test]
fn a_timeout_ends_the_game_when_one_seat_is_left_in_it() {
    let mut room = started(&["Ann", "Ben"]);
    assert_eq!(room.state.current_player, 0);
    room.state.pot = 0;
    room.state.current_bet = 0;
    room.state.players[0].current_bet = 0;
    room.state.players[1].current_bet = 0;
    room.state.players[1].status = PlayerStatus::Eliminated;
    room.state.players[1].chips = 0;
    assert!(room.check_timeouts_after(Some((31, 0)), SystemTime::now()));
    assert_eq!(room.action_log, vec!["⏰ Ann timeout (fold) [1/3]".to_string()]);
    assert_eq!(room.state.phase, GamePhase::PreFlop);
    assert_eq!(room.state.players[0].status, PlayerStatus::Active);
    assert_eq!(room.state.players[1].status, PlayerStatus::Eliminated);
    assert!(room.game_finished);
    assert_eq!(room.winner_id, Some("Ann_id".to_string()));
}

#[test]
fn a_timeout_with_others_still_in_the_game_does_not_end_it() {
    let mut room = started(&["Ann", "Ben"]);
    assert!(room.check_timeouts_after(Some((31, 0)), SystemTime::now()));
    assert_eq!(room.state.players[1].chips + room.state.players[0].chips + room.state.pot, 2000);
    assert_eq!(room.state.phase, GamePhase::PreFlop);
    assert_eq!(room.state.dealer_position, 0);
    assert!(!room.game_finished);
    assert_eq!(room.winner_id, None);
    assert_eq!(
        room.state.action_log,
        vec![
            "Ann folds".to_string(),
            "Ben wins 30 chips (opponent folded)".to_string()
        ]
    );
}

#[test]
fn the_manager_sweeps_every_room_for_timeouts() {
    let mut manager = GameManager::new();
    let request = |name: &str| CreateGameRequest {
        name: name.to_string(),
        max_players: 4,
        starting_chips: 1000,
        small_blind: 10,
        big_blind: 20,
    };
    manager.create_game_with_id(1, request("one"));
    manager.create_game_with_id(2, request("two"));
    for game in [1, 2] {
        manager.join_game_as(game, "a".to_string(), "Ann".to_string(), PlayerType::Human).unwrap();
        manager.join_game_as(game, "b".to_string(), "Ben".to_string(), PlayerType::Bot).unwrap();
    }
    assert_eq!(
        manager.start_game(3),
        Err("Partie non trouvée".to_string())
    );
    manager.start_game(1).unwrap();
    manager.run_maintenance();
    assert!(manager.get_game(1).unwrap().action_log.is_empty());
    assert!(manager.get_game(2).unwrap().action_log.is_empty());
    assert!(manager.get_game(1).unwrap().started);
    assert!(!manager.get_game(2).unwrap().started);
}

#[test]
fn the_manager_hands_requests_to_the_room_of_the_game() {
    let mut manager = GameManager::new();
    manager.create_game_with_id(
        0x10,
        CreateGameRequest {
            name: "one".to_string(),
            max_players: 2,
            starting_chips: 1000,
            small_blind: 5,
            big_blind: 10,
        },
    );
    let join = |name: &str| JoinGameRequest {
        bot_name: name.to_string(),
        player_type: default_player_type(),
        bot_secret: None,
    };
    assert_eq!(
        manager.join_game(0x11, join("Ann")).unwrap_err(),
        "Partie non trouvée"
    );
    let ann = manager.join_game(0x10, join("Ann")).unwrap();
    assert_eq!(ann.game_id, 0x10);
    assert_eq!(ann.position, 0);
    assert!(ann.player_id.starts_with("Ann_"));
    assert_eq!(ann.player_id.len(), 4 + 36);
    let said = verify_token(&ann.auth_token).unwrap();
    assert_eq!(said.player_id, ann.player_id);
    assert_eq!(said.game_id, "00000000-0000-0000-0000-000000000010");
    let ben = manager.join_game(0x10, join("Ben")).unwrap();
    assert_eq!(ben.position, 1);
    assert_ne!(ben.player_id[4..], ann.player_id[4..]);
    assert_eq!(
        manager.join_game(0x10, join("Cat")).unwrap_err(),
        "La partie est pleine"
    );
    assert_eq!(manager.get_game(0x10).unwrap().player_types[1], PlayerType::Bot);
    assert_eq!(
        manager.get_game_state(0x11, &ann.player_id).unwrap_err(),
        "Partie non trouvée"
    );
    assert_eq!(
        manager
            .submit_action(0x10, request(&ann.auth_token, PlayerAction::Fold))
            .unwrap_err(),
        "La partie n'a pas encore commencé"
    );
    manager.start_game(0x10).unwrap();
    assert_eq!(
        manager
            .submit_action(0x10, request("bad", PlayerAction::Fold))
            .unwrap_err(),
        "Token invalide"
    );
    assert_eq!(
        manager
            .submit_action_as(0x10, Err("Token expiré".to_string()), PlayerAction::Fold)
            .unwrap_err(),
        "Token expiré"
    );
    assert_eq!(
        manager
            .submit_action_as(0x12, claims("x", 0x12), PlayerAction::Fold)
            .unwrap_err(),
        "Partie non trouvée"
    );
    assert_eq!(
        manager
            .submit_action_as(0x10, claims(&ann.player_id, 0x12), PlayerAction::Fold)
            .unwrap_err(),
        "Token invalide pour cette partie"
    );
    let shown = manager.get_game_state(0x10, &ann.player_id).unwrap();
    assert_eq!(shown.current_player_id, Some(ann.player_id.clone()));
    assert_eq!(shown.pot, 15);
    let answer = manager
        .submit_action(0x10, request(&ben.auth_token, PlayerAction::Call))
        .unwrap();
    assert!(!answer.success);
    assert_eq!(answer.error, Some("Ce n'est pas le tour de ce joueur".to_string()));
    let answer = manager
        .submit_action(0x10, request(&ann.auth_token, PlayerAction::Call))
        .unwrap();
    assert!(answer.success);
    assert_eq!(manager.get_game(0x10).unwrap().state.pot, 20);
    let other = create_token(&ann.player_id, "another game").unwrap();
    assert_eq!(
        manager
            .submit_action(0x10, request(&other, PlayerAction::Call))
            .unwrap_err(),
        "Token invalide pour cette partie"
    );
}

#[test]
fn cards_phases_and_actions_have_their_texts() {
    assert_eq!(card_to_string(&Card::new(Rank::King, Suit::Hearts)), "K♥");
    assert_eq!(
        cards_to_strings(&vec![
            Card::new(Rank::Ten, Suit::Clubs),
            Card::new(Rank::Two, Suit::Diamonds)
        ]),
        vec!["10♣", "2♦"]
    );
    assert_eq!(phase_to_string(&GamePhase::PreFlop), "preflop");
    assert_eq!(phase_to_string(&GamePhase::Flop), "flop");
    assert_eq!(phase_to_string(&GamePhase::Turn), "turn");
    assert_eq!(phase_to_string(&GamePhase::River), "river");
    assert_eq!(phase_to_string(&GamePhase::Showdown), "showdown");
    assert_eq!(action_to_string(&EngineAction::Fold), "fold");
    assert_eq!(action_to_string(&EngineAction::Check), "check");
    assert_eq!(action_to_string(&EngineAction::Call), "call");
    assert_eq!(action_to_string(&EngineAction::Raise(5)), "raise");
    assert_eq!(action_to_string(&EngineAction::AllIn), "allin");
    assert_eq!(default_player_type(), PlayerType::Bot);
    assert_eq!(EngineAction::from(PlayerAction::Fold), EngineAction::Fold);
    assert_eq!(EngineAction::from(PlayerAction::Check), EngineAction::Check);
    assert_eq!(EngineAction::from(PlayerAction::Call), EngineAction::Call);
    assert_eq!(
        EngineAction::from(PlayerAction::Raise { amount: 75 }),
        EngineAction::Raise(75)
    );
    assert_eq!(EngineAction::from(PlayerAction::AllIn), EngineAction::AllIn);
}
