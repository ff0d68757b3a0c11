use sea2d::entities::animation::{advance_frame, AnimationState, AnimationType};
use sea2d::entities::camera::Camera;
use sea2d::entities::enemy::{
    direction_step, enemy_animation, enemy_hitbox_size, enemy_size, enemy_spawn_pt, pick_random_enemy_type, plan_enemies,
    EnemyType,
};
use sea2d::entities::player::{enemy_touch, facing, heal, reached_exit, MoveKey, MoveKeys, PlayerHitState};
use sea2d::entities::player::{heal_due, idle_due, invincibility_over, SECOND_NANOS};
use sea2d::entities::point::Point;
use sea2d::entities::pursuit::calculate_player_direction;
use sea2d::environment::level::Level;
use sea2d::environment::tile_type::{ExitTile, TileType};
use sea2d::wfc::overlap::TileGrid;

const G: [u8; 4] = [0, 255, 0, 0];
const W: [u8; 4] = [50, 47, 77, 255];

fn level_of(rows: Vec<Vec<[u8; 4]>>) -> Level {
    let img = TileGrid { width: rows[0].len(), height: rows.len(), tiles: rows };
    let mut level = Level::new();
    let mut exits: Vec<String> = Vec::new();
    level.load_layer(&img, &mut exits);
    level
}

fn at(x: i32, y: i32) -> Point<i32> {
    Point::new(x * 50, y * 50)
}

#[test]
fn point_and_camera() {
    let p = Point::new(3, -4);
    assert_eq!((p.x, p.y), (3, -4));
    let mut c = Camera::new(10, 20, 800, 600);
    assert_eq!(c.get_camera_center(), (410, 320));
    c.move_camera(5, -5);
    assert_eq!((c.x, c.y, c.width, c.height), (15, 15, 800, 600));
    c.move_camera(-5, 5);
    assert_eq!((c.x, c.y), (10, 20));
    c.set_camera(-100, 7);
    assert_eq!(c.get_camera_center(), (300, 307));
    let huge = Camera::new(0, 0, u32::MAX - 2, 4);
    assert_eq!(huge.get_camera_center(), (-1, 2));
}

#[test]
fn enemy_goes_around_a_wall() {
    let level = level_of(vec![vec![G, G, G, G, G], vec![G, W, W, W, G], vec![G, G, G, G, G]]);
    assert_eq!(calculate_player_direction(&level, at(0, 1), at(4, 1)), 2);
    assert_eq!(calculate_player_direction(&level, at(0, 0), at(2, 0)), 1);
    assert_eq!(calculate_player_direction(&level, at(2, 0), at(0, 0)), 3);
    assert_eq!(calculate_player_direction(&level, at(0, 2), at(0, 0)), 0);
    assert_eq!(calculate_player_direction(&level, at(3, 2), at(3, 2)), -1);
}

#[test]
fn enemy_prefers_right_then_left_then_down_then_up() {
    let level = level_of(vec![vec![G; 3]; 3]);
    assert_eq!(calculate_player_direction(&level, at(0, 0), at(2, 2)), 1);
    assert_eq!(calculate_player_direction(&level, at(2, 2), at(0, 0)), 3);
    assert_eq!(calculate_player_direction(&level, at(0, 2), at(2, 0)), 1);
    assert_eq!(calculate_player_direction(&level, at(2, 0), at(0, 2)), 3);
    assert_eq!(calculate_player_direction(&level, at(1, 2), at(1, 0)), 0);
    assert_eq!(calculate_player_direction(&level, at(1, 0), at(1, 2)), 2);
}

#[test]
fn enemy_cannot_reach_a_walled_player() {
    let level = level_of(vec![vec![G, W, G], vec![G, W, G]]);
    assert_eq!(calculate_player_direction(&level, at(0, 0), at(2, 1)), -1);
    assert_eq!(calculate_player_direction(&level, at(0, 0), at(0, 1)), 2);
    assert_eq!(calculate_player_direction(&level, at(-3, 0), at(0, 0)), -1);
    assert_eq!(calculate_player_direction(&level, at(-1, 0), at(0, 1)), 1);
}

#[test]
fn enemy_kinds() {
    assert_eq!(enemy_size(EnemyType::Wizard), (64, 128));
    assert_eq!(enemy_hitbox_size(EnemyType::Wizard), (58, 116));
    assert_eq!(enemy_size(EnemyType::Slime), (50, 50));
    assert_eq!(enemy_hitbox_size(EnemyType::Slime), (45, 45));
    assert_eq!(enemy_hitbox_size(EnemyType::Skull), (58, 58));
    for _ in 0..100 {
        assert_ne!(pick_random_enemy_type(), EnemyType::Placeholder);
    }
}

#[test]
fn enemy_spawns_away_from_the_player() {
    let walk = [0u8, 0, 0, 0];
    let grid = TileGrid { width: 5, height: 5, tiles: vec![vec![walk; 5]; 5] };
    for _ in 0..30 {
        let (px, py) = enemy_spawn_pt(EnemyType::Wizard, &grid, (0, 0), 60).unwrap();
        assert_eq!(px % 60, 0);
        assert_eq!((py + 64) % 60, 0);
        let (x, y) = (px / 60, (py + 64) / 60);
        assert!(x + y >= 3);
        let (_, sy) = enemy_spawn_pt(EnemyType::Slime, &grid, (0, 0), 60).unwrap();
        assert_eq!((sy + 16) % 60, 0);
    }
    assert!(enemy_spawn_pt(EnemyType::Placeholder, &grid, (0, 0), 60).is_none());
    let small = TileGrid { width: 2, height: 1, tiles: vec![vec![walk; 2]] };
    assert!(enemy_spawn_pt(EnemyType::Skull, &small, (0, 0), 60).is_none());
}

#[test]
fn enemies_planned_for_a_level() {
    let walk = [0u8, 0, 0, 0];
    let grid = TileGrid { width: 5, height: 5, tiles: vec![vec![walk; 5]; 5] };
    let plan = plan_enemies(7, &grid, (0, 0), 60);
    assert_eq!(plan.len(), 3);
    for (kind, spot) in &plan {
        assert_ne!(*kind, EnemyType::Placeholder);
        let (px, _) = spot.unwrap();
        assert_eq!(px % 60, 0);
    }
    assert_eq!(plan_enemies(1, &grid, (0, 0), 60).len(), 1);
    let small = TileGrid { width: 2, height: 1, tiles: vec![vec![walk; 2]] };
    let none = plan_enemies(3, &small, (0, 0), 60);
    assert_eq!(none.len(), 2);
    assert!(none.iter().all(|(_, spot)| spot.is_none()));
}

#[test]
fn enemy_looks() {
    assert_eq!(enemy_animation(EnemyType::Wizard, 0), Some(AnimationState::Back));
    assert_eq!(enemy_animation(EnemyType::Skull, 1), Some(AnimationState::Right));
    assert_eq!(enemy_animation(EnemyType::Skull, 3), Some(AnimationState::Left));
    assert_eq!(enemy_animation(EnemyType::Slime, 1), Some(AnimationState::Front));
    assert_eq!(enemy_animation(EnemyType::Placeholder, 2), None);
    assert_eq!(enemy_animation(EnemyType::Stonewalker, -1), Some(AnimationState::Default));
    assert_eq!(direction_step(0), (0, -1));
    assert_eq!(direction_step(3), (-1, 0));
    assert_eq!(direction_step(9), (0, 0));
}

#[test]
fn animation_frames() {
    let mut state = (0, 0);
    let mut seen = Vec::new();
    for _ in 0..6 {
        state = advance_frame(state.0, state.1, 3, AnimationType::PingPong);
        seen.push(state.0);
    }
    assert_eq!(seen, vec![1, 2, 1, 0, 1, 2]);
    let mut state = (0, 0);
    let mut seen = Vec::new();
    for _ in 0..5 {
        state = advance_frame(state.0, state.1, 3, AnimationType::Loop);
        seen.push(state.0);
    }
    assert_eq!(seen, vec![1, 2, 0, 0, 1]);
}

#[test]
fn movement_keys() {
    let mut keys = MoveKeys::new();
    keys.key_down(MoveKey::Up);
    assert_eq!((keys.dir_x, keys.dir_y), (0, -1));
    keys.key_down(MoveKey::Down);
    assert_eq!(keys.dir_y, 1);
    keys.key_up(MoveKey::Down);
    assert_eq!(keys.dir_y, -1);
    keys.key_up(MoveKey::Up);
    assert_eq!(keys.dir_y, 0);
    keys.key_down(MoveKey::Left);
    keys.key_down(MoveKey::Right);
    keys.key_up(MoveKey::Left);
    assert_eq!(keys.dir_x, 1);
    keys.reset_velocity();
    assert_eq!(keys, MoveKeys::new());
    assert_eq!(facing(1, 1), Some(AnimationState::Right));
    assert_eq!(facing(0, -1), Some(AnimationState::Back));
    assert_eq!(facing(0, 0), None);
}

#[test]
fn health() {
    assert_eq!(enemy_touch(PlayerHitState::Vulnerable, 100), (PlayerHitState::Invincible, 85, true));
    assert_eq!(enemy_touch(PlayerHitState::Invincible, 100), (PlayerHitState::Invincible, 100, false));
    assert_eq!(heal(95), (100, true));
    assert_eq!(heal(50), (60, true));
    assert_eq!(heal(100), (100, false));
    assert_eq!(heal(-20), (-10, true));
}

fn exit(name: &str, locked: bool) -> TileType {
    TileType::Exit(ExitTile { next_level: name.to_string(), locked })
}

#[test]
fn exits_reached() {
    let none = reached_exit(&vec![TileType::Grass, exit("a", false), exit("b", true)], None);
    assert!(none.is_none());
    let a = reached_exit(&vec![exit("b", true), exit("a", false), TileType::Wall], None).unwrap();
    assert_eq!((a.next_level.as_str(), a.locked), ("a", false));
    let kept = reached_exit(&vec![TileType::Grass], Some(ExitTile { next_level: "k".to_string(), locked: false }));
    assert_eq!(kept.unwrap().next_level, "k");
}

#[test]
fn timing_of_hits_heals_and_idling() {
    assert!(!invincibility_over(0, SECOND_NANOS));
    assert!(invincibility_over(0, SECOND_NANOS + 1));
    assert!(!invincibility_over(5 * SECOND_NANOS, SECOND_NANOS));
    assert!(heal_due(0, 0, 3 * SECOND_NANOS));
    assert!(!heal_due(SECOND_NANOS, 0, 3 * SECOND_NANOS));
    assert!(!heal_due(0, SECOND_NANOS, 3 * SECOND_NANOS));
    assert!(!idle_due(0, 5 * SECOND_NANOS));
    assert!(idle_due(0, 5 * SECOND_NANOS + 1));
    assert!(sea2d::entities::enemy::reroute_due(0, SECOND_NANOS / 2 + 1));
    assert!(!sea2d::entities::enemy::reroute_due(0, SECOND_NANOS / 2));
    assert!(sea2d::game::shot_allowed(0, 250_000_001));
    assert!(!sea2d::game::shot_allowed(0, 250_000_000));
}
