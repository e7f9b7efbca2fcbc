use backend_rs::state::{
    GameError, GameState, LikeDrawInput, Player, PlayerInput, Submission,
};

fn input(key: &str) -> PlayerInput {
    PlayerInput { pub_key: key.to_string(), name: format!("name-{key}"), avatar: format!("avatar-{key}") }
}

fn lobby_of(n: usize) -> GameState {
    let mut game = GameState::new();
    for i in 0..n {
        game.add_player(input(&format!("key{i}")), format!("socket{i}")).unwrap();
    }
    game
}

fn submit(game: &mut GameState, slot: u8, content: &str) -> Result<bool, GameError> {
    game.submit_img_or_prompt(Submission { player_idx: slot, content: content.to_string() })
}

fn like(game: &mut GameState, voter: u8, liked: u8) -> Result<(String, bool), GameError> {
    assert!(game.like_fits(&LikeDrawInput { player_idx: voter, like_idx: liked }));
    game.like_img(LikeDrawInput { player_idx: voter, like_idx: liked })
}

#[test]
fn new_session_is_an_empty_lobby() {
    let game = GameState::new();
    assert!(game.players().is_empty());
    assert_eq!(game.round(), 0);
    assert!(!game.game_started());
    assert!(game.get_leaderboard().is_empty());
    assert!(game.game_finished());
}

#[test]
fn default_session_is_an_empty_lobby() {
    let game = GameState::default();
    assert!(game.players().is_empty());
    assert_eq!(game.round(), 0);
    assert!(!game.game_started());
}

#[test]
fn roster_grows_by_one_per_join_up_to_eight() {
    let mut game = GameState::new();
    for i in 0..8usize {
        let roster = game.add_player(input(&format!("key{i}")), format!("socket{i}")).unwrap();
        assert_eq!(roster.len(), i + 1);
        assert_eq!(game.players().len(), i + 1);
    }
}

#[test]
fn ninth_join_is_rejected_as_full() {
    let mut game = lobby_of(8);
    let r = game.add_player(input("late"), "socket-late".to_string());
    assert_eq!(r.err(), Some(GameError::GameFull));
    assert_eq!(game.players().len(), 8);
    assert_eq!(game.score(&"late".to_string()), None);
}

#[test]
fn join_copies_the_details_and_marks_the_first_as_host() {
    let mut game = GameState::new();
    let first = game.add_player(input("alice"), "s-1".to_string()).unwrap();
    assert_eq!(first.len(), 1);
    let p: &Player = &first[0];
    assert_eq!(p.id, "s-1");
    assert_eq!(p.pub_key, "alice");
    assert_eq!(p.name, "name-alice");
    assert_eq!(p.avatar, "avatar-alice");
    assert!(p.is_host);
    let second = game.add_player(input("bob"), "s-2".to_string()).unwrap();
    assert_eq!(second.len(), 2);
    assert!(second[0].is_host);
    assert!(!second[1].is_host);
    assert_eq!(second[1].id, "s-2");
    assert_eq!(second[1].pub_key, "bob");
}

#[test]
fn join_enters_the_key_with_score_zero() {
    let game = lobby_of(3);
    assert_eq!(game.score(&"key0".to_string()), Some(0));
    assert_eq!(game.score(&"key2".to_string()), Some(0));
    assert_eq!(game.score(&"nobody".to_string()), None);
}

#[test]
fn join_after_start_is_rejected() {
    let mut game = lobby_of(3);
    game.start_game().unwrap();
    let r = game.add_player(input("late"), "s".to_string());
    assert_eq!(r.err(), Some(GameError::GameStarted));
    assert_eq!(game.players().len(), 3);
}

#[test]
fn started_and_full_reports_started() {
    let mut game = lobby_of(8);
    game.start_game().unwrap();
    let r = game.add_player(input("late"), "s".to_string());
    assert_eq!(r.err(), Some(GameError::GameStarted));
}

#[test]
fn start_needs_three_players() {
    for n in 0..3usize {
        let mut game = lobby_of(n);
        assert_eq!(game.start_game(), Err(GameError::NotEnoughPlayers));
        assert!(!game.game_started());
    }
}

#[test]
fn start_succeeds_once() {
    let mut game = lobby_of(3);
    assert_eq!(game.start_game(), Ok(()));
    assert!(game.game_started());
    assert_eq!(game.start_game(), Err(GameError::GameStarted));
    assert!(game.game_started());
}

#[test]
fn round_completes_on_the_last_distinct_slot() {
    let mut game = lobby_of(4);
    game.start_game().unwrap();
    assert_eq!(submit(&mut game, 2, "c"), Ok(false));
    assert_eq!(submit(&mut game, 0, "a"), Ok(false));
    assert_eq!(submit(&mut game, 3, "d"), Ok(false));
    assert_eq!(game.round(), 0);
    assert_eq!(submit(&mut game, 1, "b"), Ok(true));
    assert_eq!(game.round(), 1);
}

#[test]
fn resubmitting_a_slot_does_not_count_and_last_write_wins() {
    let mut game = lobby_of(3);
    game.start_game().unwrap();
    assert_eq!(submit(&mut game, 0, "first"), Ok(false));
    assert_eq!(submit(&mut game, 0, "second"), Ok(false));
    assert_eq!(submit(&mut game, 0, "third"), Ok(false));
    assert_eq!(submit(&mut game, 1, "B"), Ok(false));
    assert_eq!(submit(&mut game, 2, "C"), Ok(true));
    assert_eq!(game.send_round_info(1).unwrap().data, "third");
}

#[test]
fn submission_for_a_missing_slot_is_rejected() {
    let mut game = lobby_of(3);
    assert_eq!(submit(&mut game, 3, "x"), Err(GameError::PlayerDoesNotExist));
    assert_eq!(submit(&mut game, 255, "x"), Err(GameError::PlayerDoesNotExist));
    assert_eq!(submit(&mut game, 0, "A"), Ok(false));
    assert_eq!(submit(&mut game, 1, "B"), Ok(false));
    assert_eq!(submit(&mut game, 2, "C"), Ok(true));
}

#[test]
fn submission_to_an_empty_lobby_is_rejected() {
    let mut game = GameState::new();
    assert_eq!(submit(&mut game, 0, "x"), Err(GameError::PlayerDoesNotExist));
}

#[test]
fn submission_to_a_finished_game_is_rejected() {
    let mut game = lobby_of(3);
    game.start_game().unwrap();
    for _ in 0..3 {
        submit(&mut game, 0, "a").unwrap();
        submit(&mut game, 1, "b").unwrap();
        submit(&mut game, 2, "c").unwrap();
    }
    assert!(game.game_finished());
    assert_eq!(submit(&mut game, 0, "more"), Err(GameError::InvalidRound));
    assert_eq!(game.round(), 3);
}

#[test]
fn rotation_hands_each_slot_its_predecessors_content() {
    let mut game = lobby_of(3);
    game.start_game().unwrap();
    submit(&mut game, 0, "A").unwrap();
    submit(&mut game, 1, "B").unwrap();
    assert_eq!(submit(&mut game, 2, "C"), Ok(true));
    assert_eq!(game.send_round_info(0).unwrap().data, "C");
    assert_eq!(game.send_round_info(1).unwrap().data, "A");
    assert_eq!(game.send_round_info(2).unwrap().data, "B");
}

#[test]
fn round_info_kind_alternates_with_the_round() {
    let mut game = lobby_of(3);
    game.start_game().unwrap();
    submit(&mut game, 0, "A").unwrap();
    submit(&mut game, 1, "B").unwrap();
    submit(&mut game, 2, "C").unwrap();
    let info = game.send_round_info(0).unwrap();
    assert_eq!(info.kind, "image");
    assert_eq!(info.idx, 0);
    submit(&mut game, 0, "D").unwrap();
    submit(&mut game, 1, "E").unwrap();
    submit(&mut game, 2, "F").unwrap();
    let info = game.send_round_info(0).unwrap();
    assert_eq!(info.kind, "story");
    assert_eq!(info.data, "F");
    assert_eq!(game.send_round_info(1).unwrap().data, "D");
}

#[test]
fn round_info_before_any_round_is_not_started() {
    let mut game = lobby_of(3);
    assert_eq!(game.send_round_info(0).err(), Some(GameError::GameNotStarted));
    game.start_game().unwrap();
    submit(&mut game, 0, "A").unwrap();
    assert_eq!(game.send_round_info(0).err(), Some(GameError::GameNotStarted));
}

#[test]
fn round_info_for_a_missing_slot_is_rejected() {
    let mut game = lobby_of(3);
    game.start_game().unwrap();
    submit(&mut game, 0, "A").unwrap();
    submit(&mut game, 1, "B").unwrap();
    submit(&mut game, 2, "C").unwrap();
    assert_eq!(game.send_round_info(3).err(), Some(GameError::PlayerDoesNotExist));
}

#[test]
fn finished_after_as_many_rounds_as_players() {
    let mut game = lobby_of(4);
    game.start_game().unwrap();
    for round in 0..4u8 {
        assert!(!game.game_finished());
        assert_eq!(game.round(), round);
        for slot in 0..4u8 {
            let done = submit(&mut game, slot, "x").unwrap();
            assert_eq!(done, slot == 3);
        }
    }
    assert_eq!(game.round(), 4);
    assert!(game.game_finished());
}

#[test]
fn storybook_lists_one_entry_per_completed_round() {
    let mut game = lobby_of(3);
    game.start_game().unwrap();
    submit(&mut game, 0, "A0").unwrap();
    submit(&mut game, 1, "B0").unwrap();
    submit(&mut game, 2, "C0").unwrap();
    submit(&mut game, 0, "A1").unwrap();
    submit(&mut game, 1, "B1").unwrap();
    submit(&mut game, 2, "C1").unwrap();
    submit(&mut game, 1, "pending").unwrap();
    let book = game.get_all_imgs_or_prompts(1).unwrap();
    assert_eq!(book.round, 3);
    assert_eq!(book.content.len(), 2);
    assert_eq!(book.content[0].kind, "story");
    assert_eq!(book.content[0].data, "B0");
    assert_eq!(book.content[0].idx, 0);
    assert_eq!(book.content[1].kind, "image");
    assert_eq!(book.content[1].data, "B1");
    assert_eq!(book.content[1].idx, 1);
}

#[test]
fn storybook_before_any_submission_is_an_invalid_round() {
    let game = GameState::new();
    assert_eq!(game.get_all_imgs_or_prompts(0).err(), Some(GameError::InvalidRound));
    let game = lobby_of(3);
    for key in [0u8, 1, 2, 3, 255] {
        assert_eq!(game.get_all_imgs_or_prompts(key).err(), Some(GameError::InvalidRound));
    }
}

#[test]
fn storybook_before_a_round_has_completed_is_an_invalid_round() {
    let mut game = lobby_of(3);
    game.start_game().unwrap();
    submit(&mut game, 0, "A").unwrap();
    assert_eq!(game.get_all_imgs_or_prompts(1).err(), Some(GameError::InvalidRound));
    assert_eq!(game.get_all_imgs_or_prompts(0).err(), Some(GameError::InvalidRound));
    submit(&mut game, 1, "B").unwrap();
    assert_eq!(game.get_all_imgs_or_prompts(1).err(), Some(GameError::InvalidRound));
    submit(&mut game, 2, "C").unwrap();
    let book = game.get_all_imgs_or_prompts(1).unwrap();
    assert_eq!(book.content.len(), 1);
    assert_eq!(book.content[0].data, "B");
    assert_eq!(book.round, 2);
}

#[test]
fn storybook_fails_while_the_round_in_progress_lacks_the_key() {
    let mut game = lobby_of(3);
    game.start_game().unwrap();
    submit(&mut game, 0, "A0").unwrap();
    submit(&mut game, 1, "B0").unwrap();
    submit(&mut game, 2, "C0").unwrap();
    assert_eq!(game.get_all_imgs_or_prompts(2).unwrap().content.len(), 1);
    submit(&mut game, 0, "A1").unwrap();
    assert_eq!(game.get_all_imgs_or_prompts(2).err(), Some(GameError::InvalidRound));
    assert_eq!(game.get_all_imgs_or_prompts(1).err(), Some(GameError::InvalidRound));
    let book = game.get_all_imgs_or_prompts(0).unwrap();
    assert_eq!(book.content.len(), 1);
    assert_eq!(book.content[0].data, "A0");
    assert_eq!(book.round, 2);
    assert_eq!(game.round(), 1);
}

#[test]
fn storybook_for_a_key_without_entries_is_an_invalid_round() {
    let mut game = lobby_of(3);
    game.start_game().unwrap();
    submit(&mut game, 0, "A").unwrap();
    submit(&mut game, 1, "B").unwrap();
    submit(&mut game, 2, "C").unwrap();
    assert_eq!(game.get_all_imgs_or_prompts(3).err(), Some(GameError::InvalidRound));
    assert_eq!(game.get_all_imgs_or_prompts(200).err(), Some(GameError::InvalidRound));
}

#[test]
fn like_adds_one_to_the_liked_player_whoever_votes() {
    let mut game = lobby_of(3);
    game.start_game().unwrap();
    submit(&mut game, 0, "A").unwrap();
    submit(&mut game, 1, "B").unwrap();
    submit(&mut game, 2, "C").unwrap();
    assert_eq!(like(&mut game, 1, 1), Ok(("B".to_string(), false)));
    assert_eq!(game.score(&"key1".to_string()), Some(1));
    assert_eq!(like(&mut game, 1, 1), Ok(("B".to_string(), false)));
    assert_eq!(game.score(&"key1".to_string()), Some(2));
    assert_eq!(game.score(&"key0".to_string()), Some(0));
    assert_eq!(game.score(&"key2".to_string()), Some(0));
}

#[test]
fn different_voters_leave_the_same_board() {
    let mut boards = Vec::new();
    for voter in 0..3u8 {
        let mut game = lobby_of(3);
        game.start_game().unwrap();
        for round in 0..3 {
            for slot in 0..3u8 {
                submit(&mut game, slot, &format!("r{round}s{slot}")).unwrap();
            }
        }
        assert!(game.game_finished());
        let (_, last) = like(&mut game, voter, 1).unwrap();
        assert_eq!(last, voter == 2);
        boards.push(game.get_leaderboard());
    }
    let expected =
        vec![("key1".to_string(), 1), ("key0".to_string(), 0), ("key2".to_string(), 0)];
    assert_eq!(boards, vec![expected.clone(), expected.clone(), expected]);
}

#[test]
fn like_reads_the_round_given_by_the_slot_distance() {
    let mut game = lobby_of(3);
    game.start_game().unwrap();
    for round in 0..3 {
        for slot in 0..3u8 {
            submit(&mut game, slot, &format!("r{round}s{slot}")).unwrap();
        }
    }
    assert_eq!(like(&mut game, 0, 0), Ok(("r0s0".to_string(), false)));
    assert_eq!(like(&mut game, 0, 1), Ok(("r1s1".to_string(), false)));
    assert_eq!(like(&mut game, 2, 0), Ok(("r2s0".to_string(), true)));
    assert_eq!(like(&mut game, 0, 2), Ok(("r2s2".to_string(), false)));
    assert_eq!(like(&mut game, 2, 1), Ok(("r1s1".to_string(), true)));
    assert_eq!(game.score(&"key0".to_string()), Some(2));
    assert_eq!(game.score(&"key1".to_string()), Some(2));
    assert_eq!(game.score(&"key2".to_string()), Some(1));
}

#[test]
fn like_wraps_the_distance_around_the_roster() {
    let mut game = lobby_of(3);
    game.start_game().unwrap();
    submit(&mut game, 0, "A").unwrap();
    submit(&mut game, 1, "B").unwrap();
    submit(&mut game, 2, "C").unwrap();
    assert_eq!(like(&mut game, 4, 1), Ok(("B".to_string(), false)));
    assert_eq!(like(&mut game, 5, 2), Ok(("C".to_string(), false)));
}

#[test]
fn like_of_a_missing_slot_is_rejected() {
    let mut game = lobby_of(3);
    assert_eq!(like(&mut game, 0, 3), Err(GameError::PlayerDoesNotExist));
    let mut empty = GameState::new();
    assert_eq!(like(&mut empty, 0, 0), Err(GameError::PlayerDoesNotExist));
}

#[test]
fn like_without_a_submission_is_an_invalid_round() {
    let mut game = lobby_of(3);
    assert_eq!(like(&mut game, 0, 0), Err(GameError::InvalidRound));
    submit(&mut game, 0, "A").unwrap();
    assert_eq!(like(&mut game, 0, 1), Err(GameError::InvalidRound));
    assert_eq!(like(&mut game, 1, 0), Err(GameError::InvalidRound));
    assert_eq!(game.score(&"key0".to_string()), Some(0));
    assert_eq!(like(&mut game, 0, 0), Ok(("A".to_string(), false)));
}

#[test]
fn leaderboard_is_sorted_by_score_descending() {
    let mut game = lobby_of(4);
    for slot in 0..4u8 {
        submit(&mut game, slot, "x").unwrap();
    }
    for _ in 0..3 {
        like(&mut game, 2, 2).unwrap();
    }
    like(&mut game, 1, 1).unwrap();
    like(&mut game, 3, 3).unwrap();
    like(&mut game, 3, 3).unwrap();
    let board = game.get_leaderboard();
    assert_eq!(
        board,
        vec![
            ("key2".to_string(), 3),
            ("key3".to_string(), 2),
            ("key1".to_string(), 1),
            ("key0".to_string(), 0),
        ]
    );
}

#[test]
fn leaderboard_ties_keep_join_order() {
    let mut game = lobby_of(4);
    for slot in 0..4u8 {
        submit(&mut game, slot, "x").unwrap();
    }
    like(&mut game, 3, 3).unwrap();
    like(&mut game, 1, 1).unwrap();
    let board = game.get_leaderboard();
    assert_eq!(
        board,
        vec![
            ("key1".to_string(), 1),
            ("key3".to_string(), 1),
            ("key0".to_string(), 0),
            ("key2".to_string(), 0),
        ]
    );
}

#[test]
fn a_key_that_joins_twice_has_one_entry() {
    let mut game = GameState::new();
    game.add_player(input("same"), "s1".to_string()).unwrap();
    game.add_player(input("same"), "s2".to_string()).unwrap();
    game.add_player(input("other"), "s3".to_string()).unwrap();
    assert_eq!(game.players().len(), 3);
    assert_eq!(game.get_leaderboard(), vec![("same".to_string(), 0), ("other".to_string(), 0)]);
    submit(&mut game, 0, "A").unwrap();
    submit(&mut game, 1, "B").unwrap();
    submit(&mut game, 2, "C").unwrap();
    like(&mut game, 0, 0).unwrap();
    like(&mut game, 1, 1).unwrap();
    assert_eq!(game.score(&"same".to_string()), Some(2));
}

#[test]
fn reset_clears_the_rounds_and_keeps_roster_and_scores() {
    let mut game = lobby_of(3);
    game.start_game().unwrap();
    submit(&mut game, 0, "A").unwrap();
    submit(&mut game, 1, "B").unwrap();
    submit(&mut game, 2, "C").unwrap();
    submit(&mut game, 0, "D").unwrap();
    like(&mut game, 1, 1).unwrap();
    assert_eq!(game.reset_game(), Ok(()));
    assert_eq!(game.round(), 0);
    assert!(!game.game_started());
    assert_eq!(game.send_round_info(0).err(), Some(GameError::GameNotStarted));
    assert_eq!(game.get_all_imgs_or_prompts(0).err(), Some(GameError::InvalidRound));
    assert_eq!(like(&mut game, 0, 0), Err(GameError::InvalidRound));
    assert_eq!(game.players().len(), 3);
    assert_eq!(game.players()[1].pub_key, "key1");
    assert_eq!(game.score(&"key1".to_string()), Some(1));
    assert_eq!(game.get_leaderboard()[0], ("key1".to_string(), 1));
}

#[test]
fn a_reset_game_can_be_joined_and_played_again() {
    let mut game = lobby_of(3);
    game.start_game().unwrap();
    submit(&mut game, 0, "A").unwrap();
    game.reset_game().unwrap();
    game.add_player(input("key3"), "socket3".to_string()).unwrap();
    assert_eq!(game.start_game(), Ok(()));
    assert_eq!(submit(&mut game, 0, "A"), Ok(false));
    assert_eq!(submit(&mut game, 1, "B"), Ok(false));
    assert_eq!(submit(&mut game, 2, "C"), Ok(false));
    assert_eq!(submit(&mut game, 3, "D"), Ok(true));
    assert_eq!(game.send_round_info(0).unwrap().data, "D");
}

#[test]
fn every_order_of_submissions_gives_one_completion() {
    let orders: [[u8; 3]; 6] = [[0, 1, 2], [0, 2, 1], [1, 0, 2], [1, 2, 0], [2, 0, 1], [2, 1, 0]];
    for order in orders {
        let mut game = lobby_of(3);
        game.start_game().unwrap();
        let mut signals = 0;
        for (k, slot) in order.iter().enumerate() {
            let done = submit(&mut game, *slot, "x").unwrap();
            assert_eq!(done, k == 2);
            if done {
                signals += 1;
            }
        }
        assert_eq!(signals, 1);
    }
}

#[test]
fn error_messages() {
    assert_eq!(GameError::RoomNotFound.message(), "Room not found");
    assert_eq!(GameError::GameFull.message(), "Game is full");
    assert_eq!(GameError::PlayerExists.message(), "Player already exists");
    assert_eq!(GameError::NotEnoughPlayers.message(), "Not enough players");
    assert_eq!(GameError::PlayerDoesNotExist.message(), "Player does not exist");
    assert_eq!(GameError::GameNotStarted.message(), "Game has not started");
    assert_eq!(GameError::GameStarted.message(), "Game has already started");
    assert_eq!(GameError::InvalidRound.message(), "Invalid round");
}
