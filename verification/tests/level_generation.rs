use sea2d::entities::enemy::enemy_count_for_level;
use sea2d::environment::autotiler::{Autotiler, TileSetType};
use sea2d::environment::tile_type::TileType;
use sea2d::wfc::overlap::{generate_wfc_attempt, Pattern};

fn load_test_patterns() -> Vec<Pattern> {
    vec![vec![vec![[0, 255, 0, 102]]]]
}

#[test]
fn generated_level_is_correct_size() {
    let patterns = load_test_patterns();
    let width = 16;
    let height = 12;
    let (grid, _connected) = generate_wfc_attempt(&patterns, width, height, 1);

    assert_eq!(grid.width, width as usize, "Width does not match expected");
    assert_eq!(grid.height, height as usize, "Height does not match expected");
}

#[test]
fn autotiler_returns_some_texture_for_simple_case() {
    let mut autotiler = Autotiler::new();
    autotiler.add_tile(TileType::Grass, TileSetType::Simple, "fake_path.png".into());

    let neighbours = [[false; 3]; 3];
    let tex = autotiler.get_tile_texture(neighbours, TileType::Grass);

    assert!(tex.is_some(), "Autotiler returned None for a simple tile");
}

#[test]
fn test_enemy_count_levels() {
    assert_eq!(enemy_count_for_level(0), 1);
    assert_eq!(enemy_count_for_level(2), 1);
    assert_eq!(enemy_count_for_level(3), 2);
    assert_eq!(enemy_count_for_level(7), 3);
    assert_eq!(enemy_count_for_level(11), 4);
}

#[test]
fn enemy_count_grows_with_levels() {
    let mut previous = enemy_count_for_level(-5);
    for i in -5..60 {
        let n = enemy_count_for_level(i);
        assert!(n >= previous);
        assert!(n >= 1);
        previous = n;
    }
    assert_eq!(enemy_count_for_level(6), 2);
    assert_eq!(enemy_count_for_level(10), 3);
    assert_eq!(enemy_count_for_level(-100), 1);
}

#[test]
fn generated_single_pattern_level_is_all_that_pattern() {
    let patterns = load_test_patterns();
    let (grid, connected) = generate_wfc_attempt(&patterns, 4, 3, 1);
    assert!(connected);
    for y in 0..3 {
        for x in 0..4 {
            assert_eq!(grid.tiles[y][x], [0, 255, 0, 102]);
        }
    }
}
