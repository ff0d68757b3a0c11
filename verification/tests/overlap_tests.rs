use sea2d::wfc::overlap::{
    contains_pattern, copy_pattern, exit_tile_edge, image_from_bytes, extract_patterns, flatten_patterns_to_tile_grid,
    generate_pattern_grid, opposite_edge, run_overlap, same_colour, same_pattern, tile_grid_from_image, Edge,
    Pattern, TileGrid, EXIT_RGBA, SPAWN_RGBA, WALL_RGBA,
};

const OPEN: [u8; 4] = [0, 255, 0, 0];
const ROCK: [u8; 4] = [9, 9, 9, 255];
const BLANK: [u8; 4] = [0, 0, 0, 0];

fn grid(rows: Vec<Vec<[u8; 4]>>) -> TileGrid {
    TileGrid { width: rows[0].len(), height: rows.len(), tiles: rows }
}

#[test]
fn new_grid_is_blank() {
    let g = TileGrid::new(3, 2);
    assert_eq!((g.width, g.height), (3, 2));
    assert_eq!(g.tiles, vec![vec![BLANK; 3]; 2]);
}

#[test]
fn wrapping_adds_a_border() {
    let g = grid(vec![vec![OPEN, ROCK]]);
    let w = g.wrap_edge(WALL_RGBA);
    assert_eq!((w.width, w.height), (4, 3));
    assert_eq!(w.tiles[0], vec![WALL_RGBA; 4]);
    assert_eq!(w.tiles[1], vec![WALL_RGBA, OPEN, ROCK, WALL_RGBA]);
    assert_eq!(w.tiles[2], vec![WALL_RGBA; 4]);
}

#[test]
fn scaling_repeats_each_tile() {
    let g = grid(vec![vec![OPEN, ROCK]]);
    let p = g.scaled(2);
    assert_eq!((p.width, p.height), (4, 2));
    assert_eq!(p.tiles[0], vec![OPEN, OPEN, ROCK, ROCK]);
    assert_eq!(p.tiles[1], vec![OPEN, OPEN, ROCK, ROCK]);
    let same = g.scaled(1);
    assert_eq!(same.tiles, g.tiles);
}

#[test]
fn spawn_and_exit_painting() {
    let mut g = TileGrid::new(4, 4);
    g.place_spawn_tile((1, 0), SPAWN_RGBA);
    assert_eq!(g.tiles[1][2], SPAWN_RGBA);
    assert_eq!(g.read_spawn(), (2, 1));
    let mut h = TileGrid::new(4, 4);
    h.place_tile_on_edge(Some(Edge::Left), (0, 1), EXIT_RGBA);
    assert_eq!(h.tiles[2][0], EXIT_RGBA);
    h.place_tile_on_edge(Some(Edge::Right), (1, 0), EXIT_RGBA);
    assert_eq!(h.tiles[1][3], EXIT_RGBA);
    h.place_tile_on_edge(None, (0, 0), EXIT_RGBA);
    assert_eq!(h.tiles[1][1], EXIT_RGBA);
}

#[test]
fn walkable_sides() {
    let g = grid(vec![vec![ROCK, ROCK, ROCK], vec![OPEN, ROCK, ROCK], vec![ROCK, ROCK, ROCK]]);
    assert!(g.has_walkable_on_edge(Edge::Left));
    assert!(!g.has_walkable_on_edge(Edge::Right));
    assert!(!g.has_walkable_on_edge(Edge::Top));
    assert!(!g.has_walkable_on_edge(Edge::Bottom));
    assert_eq!(g.load_spawn(Edge::Left), (0, 1));
    assert_eq!(g.load_exit_tile(None), ((0, 1), Some(Edge::Left)));
    assert_eq!(g.random_walkable_tile(), (0, 1));
}

#[test]
fn connectedness() {
    let joined = grid(vec![vec![OPEN, OPEN, ROCK], vec![ROCK, OPEN, OPEN]]);
    assert!(joined.is_fully_connected());
    let split = grid(vec![vec![OPEN, ROCK, OPEN]]);
    assert!(!split.is_fully_connected());
    let solid = grid(vec![vec![ROCK, ROCK]]);
    assert!(!solid.is_fully_connected());
}

#[test]
fn pattern_helpers() {
    let a: Pattern = vec![vec![OPEN, ROCK], vec![ROCK, OPEN]];
    let b: Pattern = vec![vec![OPEN, ROCK], vec![ROCK, ROCK]];
    assert!(same_colour(&OPEN, &OPEN));
    assert!(!same_colour(&OPEN, &ROCK));
    assert!(same_pattern(&a, &copy_pattern(&a)));
    assert!(!same_pattern(&a, &b));
    assert!(contains_pattern(&vec![b.clone(), a.clone()], &a));
    assert!(!contains_pattern(&vec![b.clone()], &a));
}

#[test]
fn patterns_are_stamped_in_place() {
    let a: Pattern = vec![vec![OPEN, ROCK], vec![ROCK, OPEN]];
    let pg = vec![vec![a.clone(), a.clone()]];
    let g = flatten_patterns_to_tile_grid(&pg, 2);
    assert_eq!((g.width, g.height), (3, 2));
    assert_eq!(g.tiles[0], vec![OPEN, OPEN, ROCK]);
    assert_eq!(g.tiles[1], vec![ROCK, ROCK, OPEN]);
    let chosen = generate_pattern_grid(&vec![a.clone()], 3, 2);
    assert_eq!(chosen.len(), 2);
    assert!(chosen.iter().all(|row| row.len() == 3 && row.iter().all(|p| same_pattern(p, &a))));
}

#[test]
fn distinct_patterns_of_a_sample() {
    let img = grid(vec![vec![OPEN; 4]; 4]);
    let patterns = extract_patterns(&img, 1);
    assert_eq!(patterns.len(), 1);
    assert_eq!(patterns[0], vec![vec![OPEN; 2]; 2]);
    let mut rows = vec![vec![OPEN; 4]; 4];
    rows[3][3] = ROCK;
    let mixed = extract_patterns(&grid(rows), 1);
    assert_eq!(mixed.len(), 2);
    assert_eq!(mixed[1], vec![vec![OPEN, OPEN], vec![OPEN, ROCK]]);
}

#[test]
fn exit_side_of_a_picture() {
    let mut rows = vec![vec![ROCK; 3]; 3];
    rows[1][2] = EXIT_RGBA;
    assert_eq!(exit_tile_edge(&grid(rows.clone()), 1), Some(Edge::Right));
    rows[1][2] = ROCK;
    rows[0][1] = EXIT_RGBA;
    assert_eq!(exit_tile_edge(&grid(rows.clone()), 1), Some(Edge::Top));
    rows[0][1] = ROCK;
    rows[1][1] = EXIT_RGBA;
    assert_eq!(exit_tile_edge(&grid(rows.clone()), 1), None);
    rows[1][1] = ROCK;
    assert_eq!(exit_tile_edge(&grid(rows), 1), None);
    assert_eq!(opposite_edge(&Edge::Top), Edge::Bottom);
    assert_eq!(opposite_edge(&Edge::Left), Edge::Right);
}

#[test]
fn sampling_a_picture() {
    let img = grid(vec![vec![OPEN, ROCK, EXIT_RGBA], vec![ROCK, ROCK, ROCK], vec![SPAWN_RGBA, ROCK, ROCK]]);
    let g = tile_grid_from_image(&img, 2);
    assert_eq!((g.width, g.height), (3, 3));
    assert_eq!(g.tiles[0], vec![OPEN, BLANK, BLANK]);
    assert_eq!(g.tiles[1], vec![BLANK; 3]);
    assert_eq!(g.tiles[2], vec![BLANK; 3]);
    let all = tile_grid_from_image(&img, 1);
    assert_eq!(all.tiles, img.tiles);
}

#[test]
fn overlap_level_from_a_grid() {
    let g = grid(vec![vec![ROCK, ROCK, ROCK], vec![OPEN, ROCK, ROCK], vec![ROCK, ROCK, ROCK]]);
    let made = run_overlap(g, None);
    assert_eq!((made.level.width, made.level.height), (5, 5));
    assert_eq!(made.level.tiles[2][0], EXIT_RGBA);
    assert_eq!(made.level.tiles[2][1], OPEN);
    assert_eq!(made.level.tiles[0], vec![WALL_RGBA; 5]);
    assert_eq!(made.spawn_layer.tiles[2][1], SPAWN_RGBA);
    let marked: usize = made.spawn_layer.tiles.iter().flatten().filter(|c| **c == SPAWN_RGBA).count();
    assert_eq!(marked, 1);

    let h = grid(vec![vec![ROCK, OPEN, ROCK], vec![OPEN, ROCK, ROCK], vec![ROCK, ROCK, ROCK]]);
    let next = run_overlap(h, Some(Edge::Right));
    assert_eq!(next.spawn_layer.tiles[2][1], SPAWN_RGBA);
    assert_eq!(next.level.tiles[0][2], EXIT_RGBA);
}

#[test]
fn pictures_are_read_from_png_bytes() {
    let mut img = image::RgbaImage::new(2, 1);
    img.put_pixel(0, 0, image::Rgba(OPEN));
    img.put_pixel(1, 0, image::Rgba(EXIT_RGBA));
    let mut bytes: Vec<u8> = Vec::new();
    img.write_to(&mut std::io::Cursor::new(&mut bytes), image::ImageFormat::Png).unwrap();
    let g = image_from_bytes(&bytes).unwrap();
    assert_eq!((g.width, g.height), (2, 1));
    assert_eq!(g.tiles, vec![vec![OPEN, EXIT_RGBA]]);
    assert!(image_from_bytes(&[1, 2, 3]).is_none());
}
