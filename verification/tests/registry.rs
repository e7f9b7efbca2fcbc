use backend_rs::registry::RoomRegistry;
use backend_rs::state::{GameError, GameState, PlayerInput, Submission};
use std::sync::Mutex;

fn input(key: &str) -> PlayerInput {
    PlayerInput { pub_key: key.to_string(), name: key.to_string(), avatar: String::new() }
}

fn room_with(keys: &[&str]) -> Mutex<GameState> {
    let mut game = GameState::new();
    for key in keys {
        game.add_player(input(key), format!("socket-{key}")).unwrap();
    }
    Mutex::new(game)
}

fn roster_size(registry: &RoomRegistry<Mutex<GameState>>, id: &str) -> Result<usize, GameError> {
    registry.with_room(&id.to_string(), |room: &Mutex<GameState>| {
        Ok(room.lock().unwrap().players().len())
    })
}

#[test]
fn unknown_room_is_not_found() {
    let registry: RoomRegistry<Mutex<GameState>> = RoomRegistry::new();
    assert_eq!(roster_size(&registry, "1234"), Err(GameError::RoomNotFound));
}

#[test]
fn operation_does_not_run_for_an_unknown_room() {
    let registry: RoomRegistry<Mutex<GameState>> = RoomRegistry::new();
    let mut ran = false;
    let r: Result<(), GameError> = registry.with_room(&"1234".to_string(), |_| {
        ran = true;
        Ok(())
    });
    assert_eq!(r, Err(GameError::RoomNotFound));
    assert!(!ran);
}

#[test]
fn created_room_is_found_under_its_identifier() {
    let mut registry = RoomRegistry::new();
    assert!(registry.create_room("1234".to_string(), room_with(&["a"])).is_ok());
    assert_eq!(roster_size(&registry, "1234"), Ok(1));
    assert_eq!(roster_size(&registry, "123"), Err(GameError::RoomNotFound));
    assert_eq!(roster_size(&registry, "12345"), Err(GameError::RoomNotFound));
}

#[test]
fn identifier_in_use_gives_the_room_back_and_keeps_the_old_one() {
    let mut registry = RoomRegistry::new();
    registry.create_room("1234".to_string(), room_with(&["a"])).ok().unwrap();
    let rejected = registry.create_room("1234".to_string(), room_with(&["x", "y", "z"]));
    let given_back = rejected.err().unwrap();
    assert_eq!(given_back.lock().unwrap().players().len(), 3);
    assert_eq!(roster_size(&registry, "1234"), Ok(1));
}

#[test]
fn every_created_room_stays() {
    let mut registry = RoomRegistry::new();
    for i in 0..20usize {
        let keys: Vec<String> = (0..(i % 8 + 1)).map(|k| format!("k{k}")).collect();
        let refs: Vec<&str> = keys.iter().map(|k| k.as_str()).collect();
        assert!(registry.create_room(format!("{:04}", i), room_with(&refs)).is_ok());
    }
    for i in 0..20usize {
        assert_eq!(roster_size(&registry, &format!("{:04}", i)), Ok(i % 8 + 1));
    }
}

#[test]
fn session_errors_pass_through() {
    let mut registry = RoomRegistry::new();
    registry.create_room("1".to_string(), room_with(&["a"])).ok().unwrap();
    let r = registry.with_room(&"1".to_string(), |room: &Mutex<GameState>| {
        room.lock().unwrap().start_game()
    });
    assert_eq!(r, Err(GameError::NotEnoughPlayers));
}

#[test]
fn acting_on_one_room_leaves_the_other_alone() {
    let mut registry = RoomRegistry::new();
    registry.create_room("1".to_string(), room_with(&["a", "b", "c"])).ok().unwrap();
    registry.create_room("2".to_string(), room_with(&["d", "e", "f"])).ok().unwrap();
    let started = registry.with_room(&"1".to_string(), |room: &Mutex<GameState>| {
        let mut game = room.lock().unwrap();
        game.start_game()?;
        game.submit_img_or_prompt(Submission { player_idx: 0, content: "A".to_string() })
    });
    assert_eq!(started, Ok(false));
    let other = registry.with_room(&"2".to_string(), |room: &Mutex<GameState>| {
        let game = room.lock().unwrap();
        Ok((game.game_started(), game.round(), game.players()[0].pub_key.clone()))
    });
    assert_eq!(other, Ok((false, 0, "d".to_string())));
}

#[test]
fn a_busy_room_does_not_block_another() {
    let mut registry = RoomRegistry::new();
    registry.create_room("1".to_string(), room_with(&["a"])).ok().unwrap();
    registry.create_room("2".to_string(), room_with(&["b", "c"])).ok().unwrap();
    let r = registry.with_room(&"1".to_string(), |busy: &Mutex<GameState>| {
        let _held = busy.lock().unwrap();
        roster_size(&registry, "2")
    });
    assert_eq!(r, Ok(2));
}
