use sea2d::environment::tile_type::{ExitTile, TileType};
use sea2d::wfc::{
    edge_coordinates, is_compatible, propagate, rand_player_spawn, valid_tile_count, Cell, WFCState, WfcTile,
    GRID_HEIGHT, GRID_WIDTH, TILE_SIZE,
};

fn same_edges(kinds: Vec<TileType>) -> [Vec<TileType>; 4] {
    [kinds.clone(), kinds.clone(), kinds.clone(), kinds]
}

fn preview_tileset() -> Vec<WfcTile> {
    vec![
        WfcTile { tile_type: TileType::Water, edges: same_edges(vec![TileType::Water, TileType::Grass, TileType::Sand]) },
        WfcTile { tile_type: TileType::Grass, edges: same_edges(vec![TileType::Grass, TileType::Water]) },
        WfcTile { tile_type: TileType::Sand, edges: same_edges(vec![TileType::Sand, TileType::Water]) },
        WfcTile {
            tile_type: TileType::Exit(ExitTile { next_level: "level1_2".to_string(), locked: false }),
            edges: same_edges(vec![TileType::Grass, TileType::Water]),
        },
    ]
}

fn two_kinds() -> Vec<WfcTile> {
    vec![
        WfcTile { tile_type: TileType::Grass, edges: same_edges(vec![TileType::Grass]) },
        WfcTile { tile_type: TileType::Water, edges: same_edges(vec![TileType::Water]) },
    ]
}

fn open_grid(count: usize) -> Vec<Vec<Cell>> {
    (0..GRID_HEIGHT).map(|_| (0..GRID_WIDTH).map(|_| Cell::new(count)).collect()).collect()
}

#[test]
fn compatibility_needs_a_shared_kind() {
    let tiles = preview_tileset();
    assert!(is_compatible(&tiles[1], &tiles[2], 1));
    assert!(is_compatible(&tiles[0], &tiles[1], 0));
    let two = two_kinds();
    for d in 0..4 {
        assert!(is_compatible(&two[0], &two[0], d));
        assert!(!is_compatible(&two[0], &two[1], d));
        assert!(!is_compatible(&two[1], &two[0], d));
    }
}

#[test]
fn new_cell_offers_every_tile() {
    let cell = Cell::new(3);
    assert_eq!(cell.options, vec![0, 1, 2]);
    assert!(!cell.collapsed);
    assert_eq!(cell.entropy(), 3);
    assert_eq!(Cell::new(0).entropy(), 0);
}

#[test]
fn collapse_fixes_one_option() {
    for _ in 0..20 {
        let mut cell = Cell::new(4);
        cell.collapse();
        assert!(cell.collapsed);
        assert_eq!(cell.options.len(), 1);
        assert!(cell.options[0] < 4);
        let before = cell.options.clone();
        cell.collapse();
        assert_eq!(cell.options, before);
    }
    let mut empty = Cell::new(0);
    empty.collapse();
    assert!(!empty.collapsed);
    assert!(empty.options.is_empty());
}

#[test]
fn edge_coordinates_list_the_border() {
    assert_eq!(
        edge_coordinates(3, 3),
        vec![(0, 0), (0, 2), (1, 0), (1, 2), (2, 0), (2, 2), (0, 1), (2, 1)]
    );
    assert_eq!(edge_coordinates(2, 1), vec![(0, 0), (0, 0), (1, 0), (1, 0)]);
    let edges = edge_coordinates(GRID_WIDTH, GRID_HEIGHT);
    assert_eq!(edges.len(), 2 * GRID_WIDTH + 2 * (GRID_HEIGHT - 2));
    for y in 0..GRID_HEIGHT {
        for x in 0..GRID_WIDTH {
            let border = x == 0 || y == 0 || x == GRID_WIDTH - 1 || y == GRID_HEIGHT - 1;
            assert_eq!(edges.contains(&(x, y)), border);
        }
    }
}

#[test]
fn valid_tiles_stop_at_the_exit() {
    assert_eq!(valid_tile_count(&preview_tileset()), 3);
    assert_eq!(valid_tile_count(&two_kinds()), 2);
}

#[test]
fn propagation_spreads_a_fixed_cell() {
    let tiles = two_kinds();
    let mut grid = open_grid(2);
    grid[0][0] = Cell { options: vec![0], collapsed: true };
    assert!(propagate(&mut grid, &tiles));
    for y in 0..GRID_HEIGHT {
        for x in 0..GRID_WIDTH {
            assert_eq!(grid[y][x].options, vec![0]);
            assert_eq!(grid[y][x].collapsed, x == 0 && y == 0);
        }
    }
}

#[test]
fn propagation_reports_a_contradiction() {
    let tiles = two_kinds();
    let mut grid = open_grid(2);
    grid[0][0] = Cell { options: vec![0], collapsed: true };
    grid[0][2] = Cell { options: vec![1], collapsed: true };
    assert!(!propagate(&mut grid, &tiles));
}

#[test]
fn propagation_leaves_a_consistent_grid_alone() {
    let tiles = preview_tileset();
    let mut grid = open_grid(3);
    assert!(propagate(&mut grid, &tiles));
    for row in &grid {
        for cell in row {
            assert_eq!(cell.options, vec![0, 1, 2]);
        }
    }
}

fn generate(tiles: &Vec<WfcTile>) -> WFCState {
    for _ in 0..50 {
        if let Some(state) = WFCState::new(tiles.clone()) {
            return state;
        }
    }
    panic!("no grid generated");
}

#[test]
fn generated_grid_fits_together() {
    let tiles = preview_tileset();
    let state = generate(&tiles);
    assert_eq!(state.grid.len(), GRID_HEIGHT);
    let mut exits = 0;
    for y in 0..GRID_HEIGHT {
        assert_eq!(state.grid[y].len(), GRID_WIDTH);
        for x in 0..GRID_WIDTH {
            let cell = &state.grid[y][x];
            assert!(cell.collapsed);
            assert_eq!(cell.options.len(), 1);
            if cell.options[0] == 3 {
                exits += 1;
                assert!(x == 0 || y == 0 || x == GRID_WIDTH - 1 || y == GRID_HEIGHT - 1);
            }
        }
    }
    assert_eq!(exits, 1);
    for y in 0..GRID_HEIGHT {
        for x in 0..GRID_WIDTH {
            let a = state.grid[y][x].options[0];
            if a == 3 {
                continue;
            }
            if x + 1 < GRID_WIDTH && state.grid[y][x + 1].options[0] != 3 {
                assert!(is_compatible(&tiles[a], &tiles[state.grid[y][x + 1].options[0]], 1));
            }
            if y + 1 < GRID_HEIGHT && state.grid[y + 1][x].options[0] != 3 {
                assert!(is_compatible(&tiles[a], &tiles[state.grid[y + 1][x].options[0]], 2));
            }
        }
    }
}

#[test]
fn generation_with_incompatible_kinds_is_uniform() {
    let mut tiles = two_kinds();
    tiles.push(WfcTile {
        tile_type: TileType::Exit(ExitTile { next_level: "next".to_string(), locked: false }),
        edges: same_edges(vec![TileType::Grass]),
    });
    for _ in 0..10 {
        if let Some(state) = WFCState::new(tiles.clone()) {
            let first = state.grid[1][1].options[0];
            for y in 0..GRID_HEIGHT {
                for x in 0..GRID_WIDTH {
                    let o = state.grid[y][x].options[0];
                    assert!(o == first || o == 2);
                }
            }
            assert_eq!(first, 0);
        }
    }
}

#[test]
fn level_from_generated_grid() {
    let tiles = preview_tileset();
    let state = generate(&tiles);
    let spawn = rand_player_spawn(&state).expect("a ground cell");
    assert_eq!(spawn.0 % TILE_SIZE as i32, 0);
    assert_eq!(spawn.1 % TILE_SIZE as i32, 0);
    let (sx, sy) = (spawn.0 as usize / TILE_SIZE, spawn.1 as usize / TILE_SIZE);
    let kind = &tiles[state.grid[sy][sx].options[0]].tile_type;
    assert!(matches!(kind, TileType::Grass | TileType::Sand | TileType::Stone));

    let level = state.to_level().expect("a ground cell");
    assert_eq!(level.tile_size, 50);
    assert_eq!(level.tiles.len(), 1);
    let layer = &level.tiles[0];
    assert_eq!((layer.width, layer.height), (GRID_WIDTH, GRID_HEIGHT));
    for y in 0..GRID_HEIGHT {
        for x in 0..GRID_WIDTH {
            let tile = layer.cells[y][x].as_ref().expect("every preview tile has a picture");
            assert_eq!((tile.x, tile.y, tile.size), ((x * 50) as i32, (y * 50) as i32, 50));
            assert!(tile.bounding_box.is_none());
            let expected = match tiles[state.grid[y][x].options[0]].tile_type {
                TileType::Water => "resources/textures/water.png",
                TileType::Grass => "resources/textures/grass.png",
                TileType::Sand => "resources/textures/sand.png",
                TileType::Exit(_) => "resources/textures/exit.png",
                _ => unreachable!(),
            };
            assert_eq!(tile.texture_data.as_ref().unwrap().path, expected);
        }
    }
}

#[test]
fn a_set_of_fitting_ground_never_fails() {
    let ground = vec![TileType::Grass, TileType::Sand];
    let tiles = vec![
        WfcTile { tile_type: TileType::Grass, edges: same_edges(ground.clone()) },
        WfcTile { tile_type: TileType::Sand, edges: same_edges(ground.clone()) },
        WfcTile {
            tile_type: TileType::Exit(ExitTile { next_level: "next".to_string(), locked: false }),
            edges: same_edges(ground),
        },
    ];
    for _ in 0..5 {
        let state = WFCState::new(tiles.clone()).expect("a conflict-free set always succeeds");
        let exits = state.grid.iter().flatten().filter(|c| c.options == vec![2]).count();
        assert_eq!(exits, 1);
    }
}

#[test]
fn propagation_drops_only_what_does_not_fit_and_keeps_the_order() {
    let tiles = vec![
        WfcTile { tile_type: TileType::Grass, edges: same_edges(vec![TileType::Grass]) },
        WfcTile { tile_type: TileType::Water, edges: same_edges(vec![TileType::Water]) },
        WfcTile { tile_type: TileType::Sand, edges: same_edges(vec![TileType::Grass]) },
    ];
    let mut grid = open_grid(3);
    grid[0][0] = Cell { options: vec![0], collapsed: true };
    grid[0][1] = Cell { options: vec![2, 1, 0], collapsed: false };
    assert!(propagate(&mut grid, &tiles));
    assert_eq!(grid[0][0].options, vec![0]);
    assert_eq!(grid[0][1].options, vec![2, 0]);
    assert_eq!(grid[5][5].options, vec![0, 2]);
}
