use sea2d::display::game_clock::GameClock;
use sea2d::game::{
    dims_screen, on_packet, player_input, updates_world, GameAction, GameControl, GameInput, GameState, PlayerInput,
    Reaction, Received, NO_ID,
};
use sea2d::text::parse_i32;
use sea2d::wfc::overlap::{extract_level_index, get_folder_path_from_level, level_index_of_folder};

const SEC: u128 = 1_000_000_000;

#[test]
fn game_states() {
    let mut c = GameControl::new();
    assert_eq!(c.state, GameState::Running);
    assert!(!c.draw_hitboxes && c.draw_hud);
    assert_eq!(c.step(GameInput::Pause), GameAction::Continue);
    assert_eq!(c.state, GameState::Paused);
    c.step(GameInput::Pause);
    assert_eq!(c.state, GameState::Running);
    assert_eq!(c.step(GameInput::Restart), GameAction::Continue);
    assert_eq!(c.state, GameState::Running);
    assert!(!c.check_health(5));
    assert!(c.check_health(0));
    assert_eq!(c.state, GameState::GameOver);
    assert!(!c.check_health(-3));
    c.step(GameInput::Pause);
    assert_eq!(c.state, GameState::GameOver);
    assert_eq!(c.step(GameInput::Restart), GameAction::Revive);
    assert_eq!(c.state, GameState::Running);
    c.step(GameInput::ToggleHitboxes);
    c.step(GameInput::ToggleHud);
    assert!(c.draw_hitboxes && !c.draw_hud);
    assert_eq!(c.step(GameInput::Button(GameState::MainMenu)), GameAction::Continue);
    assert_eq!(c.state, GameState::MainMenu);
    assert_eq!(c.step(GameInput::Quit), GameAction::Stop);
}

#[test]
fn state_effects() {
    assert_eq!(player_input(GameState::Running), PlayerInput::Handle);
    assert_eq!(player_input(GameState::Paused), PlayerInput::Reset);
    assert_eq!(player_input(GameState::MainMenu), PlayerInput::Ignore);
    assert!(updates_world(GameState::Running));
    assert!(!updates_world(GameState::Paused));
    assert!(dims_screen(GameState::GameOver));
    assert!(!dims_screen(GameState::MainMenu));
}

#[test]
fn clock_time() {
    let mut clock = GameClock::new();
    assert_eq!(clock.formatted_time_at(0), "00:00");
    assert_eq!(clock.formatted_time_at(61 * SEC + 5), "01:01");
    assert_eq!(clock.formatted_time_at(3600 * SEC), "60:00");
    assert_eq!(clock.formatted_time_at(6000 * SEC), "100:00");
    clock.pause_at(10 * SEC);
    assert_eq!(clock.formatted_time_at(100 * SEC), "00:10");
    clock.pause_at(50 * SEC);
    assert_eq!(clock.elapsed_at(70 * SEC), 10 * SEC);
    clock.resume_at(20 * SEC);
    assert_eq!(clock.formatted_time_at(30 * SEC), "00:20");
    assert_eq!(clock.elapsed_at(95 * SEC), 85 * SEC);
    clock.resume_at(40 * SEC);
    assert_eq!(clock.elapsed_at(95 * SEC), 85 * SEC);
    assert_eq!(clock.formatted_time().len(), 5);
}

#[test]
fn reading_numbers() {
    assert_eq!(parse_i32("42"), Some(42));
    assert_eq!(parse_i32("-7"), Some(-7));
    assert_eq!(parse_i32("+5"), Some(5));
    assert_eq!(parse_i32("007"), Some(7));
    assert_eq!(parse_i32(""), None);
    assert_eq!(parse_i32("-"), None);
    assert_eq!(parse_i32("12a"), None);
    assert_eq!(parse_i32(" 1"), None);
    assert_eq!(parse_i32("2147483647"), Some(i32::MAX));
    assert_eq!(parse_i32("2147483648"), None);
    assert_eq!(parse_i32("-2147483648"), Some(i32::MIN));
    assert_eq!(parse_i32("99999999999999999999"), None);
    for s in ["0", "-0", "123", "-123456", "+99", "x", "1-1", "--1"] {
        assert_eq!(parse_i32(s), s.parse::<i32>().ok());
    }
}

#[test]
fn level_folders() {
    assert_eq!(extract_level_index("resources/levels/level3/level3_1.png"), Some(3));
    assert_eq!(extract_level_index("level12/x.png"), Some(12));
    assert_eq!(extract_level_index("x.png"), None);
    assert_eq!(extract_level_index("foo/bar.png"), None);
    assert_eq!(extract_level_index("resources/levels/levelX/level3_1.png"), None);
    assert_eq!(get_folder_path_from_level("resources/levels/level3/level3_1.png"), Some("resources/levels/level3".to_string()));
    assert_eq!(get_folder_path_from_level(""), None);
    assert_eq!(level_index_of_folder("level7"), Some(7));
    assert_eq!(level_index_of_folder("lvl7"), None);
    assert_eq!(level_index_of_folder("level"), None);
    assert_eq!(level_index_of_folder("level-2"), Some(-2));
}

#[test]
fn client_reactions_to_packets() {
    let known = vec![7u64, 9];
    assert_eq!(on_packet(NO_ID, &known, Received::ClientId(42)), Reaction::Introduce(42));
    assert_eq!(on_packet(5, &known, Received::ClientId(42)), Reaction::Introduce(5));
    assert_eq!(on_packet(5, &known, Received::Welcome(8)), Reaction::AddPlayer(8));
    assert_eq!(on_packet(5, &known, Received::Welcome(7)), Reaction::Ignore);
    assert_eq!(on_packet(5, &known, Received::Welcome(5)), Reaction::Ignore);
    assert_eq!(on_packet(5, &known, Received::Position(9)), Reaction::UpdatePlayer(9));
    assert_eq!(on_packet(5, &known, Received::Position(8)), Reaction::Ignore);
    assert_eq!(on_packet(5, &known, Received::Level(7)), Reaction::UpdatePlayer(7));
    assert_eq!(on_packet(5, &known, Received::Level(3)), Reaction::Ignore);
    assert_eq!(on_packet(5, &known, Received::Disconnect(9)), Reaction::RemovePlayer(9));
    assert_eq!(on_packet(5, &known, Received::Animation(9)), Reaction::Ignore);
}
