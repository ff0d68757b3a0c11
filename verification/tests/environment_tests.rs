use sea2d::environment::autotiler::{check, Autotiler, TileSetType};
use sea2d::environment::level::{exit_pixel_count, exits_path, layer_path, Level, TileBox};
use sea2d::environment::texture_data::TextureData;
use sea2d::environment::tile_type::{ExitTile, TileType};
use sea2d::wfc::overlap::TileGrid;

fn exit(name: &str, locked: bool) -> TileType {
    TileType::Exit(ExitTile { next_level: name.to_string(), locked })
}

#[test]
fn tile_colours() {
    assert_eq!(TileType::Stone._get_color(), (193, 193, 193));
    assert_eq!(TileType::Grass._get_color(), (0, 255, 0));
    assert_eq!(TileType::Lava._get_color(), (255, 102, 0));
    assert_eq!(TileType::Cactus._get_color(), (96, 164, 79));
    assert_eq!(exit("x", true)._get_color(), (64, 58, 171));
}

#[test]
fn tile_equality() {
    assert!(TileType::Grass == TileType::Grass);
    assert!(TileType::Grass != TileType::Water);
    assert!(exit("a", false) == exit("a", false));
    assert!(exit("a", false) != exit("a", true));
    assert!(exit("a", false) != exit("b", false));
    assert!(exit("a", false).same_as(&exit("a", false)));
    assert!(!TileType::Ice.same_as(&TileType::Snow));
    assert!(exit("a", true).duplicate() == exit("a", true));
}

#[test]
fn texture_sizes() {
    let t = TextureData::new("p.png".to_string());
    assert_eq!((t.width, t.height, t.x, t.y), (0, 0, 0, 0));
    let mut f = TextureData::new_full("p.png".to_string(), 16, 32, 48, 64);
    assert_eq!((f.width, f.height, f.x, f.y), (16, 32, 48, 64));
    f.size_auto(100, 200);
    assert_eq!((f.width, f.height), (16, 32));
    let mut g = TextureData::new_full("p.png".to_string(), 0, 32, 0, 0);
    g.size_auto(100, 200);
    assert_eq!((g.width, g.height), (100, 200));
    assert!(t == TextureData::new("p.png".to_string()));
    assert!(t != f);
}

fn grid_of(rows: &[&[bool]]) -> [[bool; 3]; 3] {
    let mut n = [[false; 3]; 3];
    for y in 0..3 {
        for x in 0..3 {
            n[y][x] = rows[y][x];
        }
    }
    n
}

#[test]
fn pattern_check() {
    let n = grid_of(&[&[false, false, false], &[false, true, true], &[false, true, false]]);
    assert!(check(&[2, 0, 2, 0, 0, 1, 2, 1, 2], &n));
    assert!(!check(&[2, 1, 2, 0, 0, 1, 2, 1, 2], &n));
    assert!(check(&[2, 2, 2, 2, 2, 2, 2, 2, 2], &n));
}

#[test]
fn complex_layout_pieces() {
    let mut tiler = Autotiler::new();
    tiler.add_tile(TileType::Grass, TileSetType::Complex, "grass.png".to_string());
    let corner = grid_of(&[&[false, false, false], &[false, true, true], &[false, true, false]]);
    let t = tiler.get_tile_texture(corner, TileType::Grass).unwrap();
    assert_eq!((t.path.as_str(), t.width, t.height, t.x, t.y), ("grass.png", 16, 16, 0, 0));
    let bottom_right = grid_of(&[&[false, true, false], &[true, true, false], &[false, false, false]]);
    let t = tiler.get_tile_texture(bottom_right, TileType::Grass).unwrap();
    assert_eq!((t.x, t.y), (32, 32));
    let alone = [[false; 3]; 3];
    let t = tiler.get_tile_texture(alone, TileType::Grass).unwrap();
    assert_eq!((t.width, t.height, t.x, t.y), (16, 16, 16, 16));
    let full = [[true; 3]; 3];
    let t = tiler.get_tile_texture(full, TileType::Grass).unwrap();
    assert_eq!((t.x, t.y), (16, 16));
}

#[test]
fn full_layout_pieces() {
    let mut tiler = Autotiler::new();
    tiler.add_tile(TileType::Sand, TileSetType::Full, "sand.png".to_string());
    let alone = [[false; 3]; 3];
    let t = tiler.get_tile_texture(alone, TileType::Sand).unwrap();
    assert_eq!((t.width, t.height, t.x, t.y), (16, 16, 48, 48));
    let full = [[true; 3]; 3];
    let t = tiler.get_tile_texture(full, TileType::Sand).unwrap();
    assert_eq!((t.x, t.y), (16, 16));
    let odd = grid_of(&[&[true, true, false], &[true, true, true], &[false, true, true]]);
    let t = tiler.get_tile_texture(odd, TileType::Sand).unwrap();
    assert_eq!((t.x, t.y), (32, 96));
}

#[test]
fn autotiler_lookups() {
    let mut tiler = Autotiler::new();
    assert!(tiler.get_tile_texture([[true; 3]; 3], TileType::Grass).is_none());
    tiler.add_tile(TileType::Grass, TileSetType::Simple, "a.png".to_string());
    tiler.add_tile(exit("l2", false), TileSetType::FullVariants, "exit.png".to_string());
    assert!(tiler.get_tile_texture([[true; 3]; 3], TileType::Water).is_none());
    assert!(tiler.get_tile_texture([[true; 3]; 3], exit("l2", true)).is_none());
    let t = tiler.get_tile_texture([[true; 3]; 3], exit("l2", false)).unwrap();
    assert_eq!((t.path.as_str(), t.width, t.height, t.x, t.y), ("exit.png", 0, 0, 0, 0));
    tiler.add_tile(TileType::Grass, TileSetType::Complex, "b.png".to_string());
    let t = tiler.get_tile_texture([[false; 3]; 3], TileType::Grass).unwrap();
    assert_eq!((t.path.as_str(), t.x, t.y), ("b.png", 16, 16));
}

fn image(rows: Vec<Vec<[u8; 4]>>) -> TileGrid {
    TileGrid { width: rows[0].len(), height: rows.len(), tiles: rows }
}

#[test]
fn layer_from_picture() {
    let img = image(vec![
        vec![[193, 193, 193, 255], [64, 58, 171, 102], [255, 0, 0, 102]],
        vec![[0, 255, 0, 100], [1, 2, 3, 255], [255, 0, 255, 200]],
    ]);
    assert_eq!(exit_pixel_count(&img), 1);
    let mut level = Level::new();
    assert_eq!(level.tile_size, 50);
    let mut exits = vec!["next_a".to_string(), "next_b".to_string()];
    level.load_layer(&img, &mut exits);
    assert_eq!(exits, vec!["next_a".to_string()]);
    assert_eq!(level.player_spawn, (100, 0));
    assert_eq!(level.tiles.len(), 1);
    let layer = &level.tiles[0];
    assert_eq!((layer.width, layer.height), (3, 2));

    let stone = layer.cells[0][0].as_ref().unwrap();
    assert!(stone.tile_type == TileType::Stone);
    assert_eq!((stone.x, stone.y, stone.size), (0, 0, 50));
    assert_eq!(stone.bounding_box, Some(TileBox { x: 0, y: 0, w: 50, h: 50 }));
    assert_eq!(stone.texture_data.as_ref().unwrap().path, "resources/textures/tile.png");

    let door = layer.cells[0][1].as_ref().unwrap();
    assert!(door.tile_type == exit("next_b", false));
    assert_eq!(door.bounding_box, Some(TileBox { x: 62, y: 12, w: 25, h: 25 }));
    assert!(door.texture_data.is_none());

    assert!(layer.cells[0][2].is_none());

    let grass = layer.cells[1][0].as_ref().unwrap();
    assert!(grass.tile_type == TileType::Grass);
    assert!(grass.bounding_box.is_none());
    assert_eq!(grass.texture_data.as_ref().unwrap().path, "resources/textures/grass.png");

    assert!(layer.cells[1][1].is_none());
    let cog = layer.cells[1][2].as_ref().unwrap();
    assert!(cog.tile_type == TileType::Inventory);
    assert_eq!(cog.bounding_box, Some(TileBox { x: 100, y: 50, w: 50, h: 50 }));

    assert!(!level.is_passable(0, 0));
    assert!(level.is_passable(0, 1));
    assert!(!level.is_passable(1, 1));
    assert!(!level.is_passable(-1, 0));
    assert!(!level.is_passable(7, 0));
}

#[test]
fn second_layer_blocks_the_first() {
    let ground = image(vec![vec![[0, 255, 0, 0], [0, 255, 0, 0]]]);
    let walls = image(vec![vec![[50, 47, 77, 255], [9, 9, 9, 0]]]);
    let mut level = Level::new();
    let mut exits: Vec<String> = Vec::new();
    level.load_layer(&ground, &mut exits);
    assert!(level.is_passable(0, 0));
    level.load_layer(&walls, &mut exits);
    assert!(!level.is_passable(0, 0));
    assert!(level.is_passable(1, 0));
    assert_eq!(level.player_spawn, (0, 0));
}

#[test]
fn level_file_paths() {
    let first = "resources/levels/level1/level1_1.png";
    assert_eq!(exits_path(first), "resources/levels/level1/level1_exits.txt");
    assert_eq!(layer_path(first, 2), "resources/levels/level1/level1_2.png");
    assert_eq!(layer_path(first, 12), "resources/levels/level1/level1_12.png");
}

#[test]
fn snapping_to_tiles() {
    let level = Level::new();
    assert_eq!(level.snap_coordinate(125), 100);
    assert_eq!(level.snap_coordinate(0), 0);
    assert_eq!(level.snap_coordinate(49), 0);
    assert_eq!(level.snap_coordinate(-30), 0);
    assert_eq!(level.snap_coordinate(-75), -50);
}
