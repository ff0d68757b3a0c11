//! A level: layers of tiles read from pictures, one pixel per tile.
use vstd::prelude::*;
use vstd::string::*;
use crate::entities::point::Point;
use crate::environment::texture_data::TextureData;
use crate::environment::tile_type::{
    ExitTile, Rgb, TileType, EXIT_COLOR, GRASS_COLOR, INVENTORY_COLOR, PLAYER_SPAWN_COLOR,
    ROCK_COLOR, SAND_COLOR, STONE_COLOR, TREE_COLOR, WALL_COLOR, WATER_COLOR,
};
use crate::wfc::overlap::{Rgba, TileGrid};
use crate::text::{decimal, push_decimal};

verus! {

/// An axis-aligned box in pixels: the solid part of a tile.
#[derive(Clone, Copy, Debug, PartialEq, Eq, Structural)]
pub struct TileBox {
    pub x: i32,
    pub y: i32,
    pub w: u32,
    pub h: u32,
}

/// A tile of a level: its position and size in pixels, its picture, its kind,
/// and the box that blocks movement, if any.
#[derive(Debug, Clone)]
pub struct Tile {
    pub x: i32,
    pub y: i32,
    pub size: u32,
    pub texture_data: Option<TextureData>,
    pub tile_type: TileType,
    pub bounding_box: Option<TileBox>,
}

impl Tile {
    /// A tile with no picture yet.
    pub fn new(x: i32, y: i32, size: u32, tile_type: TileType, bounding_box: Option<TileBox>) -> (tile: Tile)
        ensures
            tile.x == x,
            tile.y == y,
            tile.size == size,
            tile.texture_data is None,
            tile.tile_type == tile_type,
            tile.bounding_box == bounding_box,
    {
        Tile { x, y, size, texture_data: None, tile_type, bounding_box }
    }
}

/// One layer of a level: `cells[y][x]` is the tile at pixel `(x * tile_size,
/// y * tile_size)`, if there is one.
pub struct Layer {
    pub width: usize,
    pub height: usize,
    pub cells: Vec<Vec<Option<Tile>>>,
}

impl Layer {
    /// There are `height` rows of `width` cells.
    pub open spec fn wf(&self) -> bool {
        &&& self.cells@.len() == self.height
        &&& forall|y: int| 0 <= y < self.height ==> (#[trigger] self.cells@[y])@.len() == self.width
    }

    /// The cell at column `x` of row `y`.
    pub open spec fn cell(&self, x: int, y: int) -> Option<Tile> {
        self.cells@[y]@[x]
    }
}

/// A level: its layers, where the player starts, and the side of a tile in pixels.
pub struct Level {
    pub tiles: Vec<Layer>,
    pub player_spawn: (i32, i32),
    pub tile_size: i32,
}

/// The red, green and blue parts of a colour.
pub open spec fn rgb_of(c: Rgba) -> Rgb {
    (c[0], c[1], c[2])
}

/// The textured tile kinds: the kind drawn in colour `rgb`, and its picture.
pub open spec fn plain_tile(rgb: Rgb) -> Option<(TileType, Seq<char>)> {
    if rgb == STONE_COLOR {
        Some((TileType::Stone, "resources/textures/tile.png"@))
    } else if rgb == WATER_COLOR {
        Some((TileType::Water, "resources/textures/water.png"@))
    } else if rgb == GRASS_COLOR {
        Some((TileType::Grass, "resources/textures/grass.png"@))
    } else if rgb == SAND_COLOR {
        Some((TileType::Sand, "resources/textures/sand.png"@))
    } else if rgb == ROCK_COLOR {
        Some((TileType::Rock, "resources/textures/rock.png"@))
    } else if rgb == TREE_COLOR {
        Some((TileType::Tree, "resources/textures/tree.png"@))
    } else if rgb == WALL_COLOR {
        Some((TileType::Wall, "resources/textures/wall.png"@))
    } else if rgb == INVENTORY_COLOR {
        Some((TileType::Inventory, "resources/textures/cogwheel.png"@))
    } else {
        None
    }
}

/// A pixel that is mostly opaque makes its tile solid: the whole tile blocks.
pub open spec fn solid_box(c: Rgba, x: int, y: int, ts: int) -> Option<TileBox> {
    if c[3] >= 128 {
        Some(TileBox { x: (x * ts) as i32, y: (y * ts) as i32, w: ts as u32, h: ts as u32 })
    } else {
        None
    }
}

/// The box of an exit: the middle half of its tile.
pub open spec fn exit_box(x: int, y: int, ts: int) -> TileBox {
    TileBox { x: (x * ts + ts / 4) as i32, y: (y * ts + ts / 4) as i32, w: (ts / 2) as u32, h: (ts / 2) as u32 }
}

/// `cell` is what the pixel `c` at `(x, y)` makes, an exit there leading to `exit_name`.
pub open spec fn cell_ok(cell: Option<Tile>, c: Rgba, x: int, y: int, ts: int, exit_name: Seq<char>) -> bool {
    match plain_tile(rgb_of(c)) {
        Some((kind, path)) => cell matches Some(t) && {
            &&& t.x == x * ts && t.y == y * ts && t.size == ts
            &&& t.tile_type == kind
            &&& t.bounding_box == solid_box(c, x, y, ts)
            &&& t.texture_data matches Some(d) && d.path@ == path && d.width == 0 && d.height == 0 && d.x == 0
                && d.y == 0
        },
        None => if rgb_of(c) == EXIT_COLOR {
            cell matches Some(t) && {
                &&& t.x == x * ts && t.y == y * ts && t.size == ts
                &&& t.tile_type.key() == (15int, exit_name, false)
                &&& t.bounding_box == Some(exit_box(x, y, ts))
                &&& t.texture_data is None
            }
        } else {
            cell is None
        },
    }
}

/// The pixel at `(x, y)` marks an exit.
pub open spec fn is_exit_pixel(img: TileGrid, x: int, y: int) -> bool {
    rgb_of(img.at(x, y)) == EXIT_COLOR
}

/// The number of exit pixels before `(x, y)`, row by row (`x` may be the width,
/// standing for the end of row `y`).
pub open spec fn exits_before(img: TileGrid, x: int, y: int) -> nat
    decreases y, x,
{
    if y < 0 || x < 0 {
        0
    } else if x == 0 {
        if y == 0 {
            0
        } else {
            exits_before(img, img.width as int, y - 1)
        }
    } else {
        exits_before(img, x - 1, y) + if is_exit_pixel(img, x - 1, y) {
            1nat
        } else {
            0nat
        }
    }
}

/// Where the player starts after the pixels before `(x, y)`, row by row: at the
/// last spawn pixel among them, else at `init`.
pub open spec fn spawn_before(img: TileGrid, x: int, y: int, ts: int, init: (i32, i32)) -> (i32, i32)
    decreases y, x,
{
    if y < 0 || x < 0 {
        init
    } else if x == 0 {
        if y == 0 {
            init
        } else {
            spawn_before(img, img.width as int, y - 1, ts, init)
        }
    } else if rgb_of(img.at(x - 1, y)) == PLAYER_SPAWN_COLOR {
        (((x - 1) * ts) as i32, (y * ts) as i32)
    } else {
        spawn_before(img, x - 1, y, ts, init)
    }
}

/// Whether two colours are the same.
fn same_rgb(a: Rgb, b: Rgb) -> (same: bool)
    ensures
        same == (a == b),
{
    a.0 == b.0 && a.1 == b.1 && a.2 == b.2
}

/// The textured tile kind drawn in `rgb`, and its picture.
fn plain_tile_of(rgb: Rgb) -> (found: Option<(TileType, &'static str)>)
    ensures
        match (found, plain_tile(rgb)) {
            (Some((kind, path)), Some((k, p))) => kind == k && path@ == p,
            (None, None) => true,
            _ => false,
        },
{
    if same_rgb(rgb, STONE_COLOR) {
        Some((TileType::Stone, "resources/textures/tile.png"))
    } else if same_rgb(rgb, WATER_COLOR) {
        Some((TileType::Water, "resources/textures/water.png"))
    } else if same_rgb(rgb, GRASS_COLOR) {
        Some((TileType::Grass, "resources/textures/grass.png"))
    } else if same_rgb(rgb, SAND_COLOR) {
        Some((TileType::Sand, "resources/textures/sand.png"))
    } else if same_rgb(rgb, ROCK_COLOR) {
        Some((TileType::Rock, "resources/textures/rock.png"))
    } else if same_rgb(rgb, TREE_COLOR) {
        Some((TileType::Tree, "resources/textures/tree.png"))
    } else if same_rgb(rgb, WALL_COLOR) {
        Some((TileType::Wall, "resources/textures/wall.png"))
    } else if same_rgb(rgb, INVENTORY_COLOR) {
        Some((TileType::Inventory, "resources/textures/cogwheel.png"))
    } else {
        None
    }
}

/// The number of exit pixels in the picture.
pub fn exit_pixel_count(img: &TileGrid) -> (count: usize)
    requires
        img.wf(),
        img.width * img.height <= usize::MAX,
    ensures
        count == exits_before(*img, 0, img.height as int),
{
    let mut count: usize = 0;
    let mut y: usize = 0;
    while y < img.height
        invariant
            img.wf(),
            img.width * img.height <= usize::MAX,
            y <= img.height,
            count == exits_before(*img, 0, y as int),
            count <= y * img.width,
        decreases img.height - y,
    {
        let mut x: usize = 0;
        while x < img.width
            invariant
                img.wf(),
                img.width * img.height <= usize::MAX,
                y < img.height,
                x <= img.width,
                count == exits_before(*img, x as int, y as int),
                count <= y * img.width + x,
            decreases img.width - x,
        {
            assert(y * img.width + x + 1 <= img.width * img.height) by (nonlinear_arith)
                requires
                    y < img.height,
                    x < img.width,
            ;
            let c = img.tiles[y][x];
            if same_rgb((c[0], c[1], c[2]), EXIT_COLOR) {
                count = count + 1;
            }
            x = x + 1;
        }
        assert(exits_before(*img, 0, y as int + 1) == exits_before(*img, img.width as int, y as int));
        assert((y + 1) * img.width == y * img.width + img.width) by (nonlinear_arith);
        y = y + 1;
    }
    count
}

impl Level {
    /// An empty level with tiles of 50 pixels.
    pub fn new() -> (level: Level)
        ensures
            level.tiles@.len() == 0,
            level.player_spawn == (0i32, 0i32),
            level.tile_size == 50,
    {
        Level { tiles: Vec::new(), player_spawn: (0, 0), tile_size: 50 }
    }

    /// Reads a layer from a picture, one pixel per tile, and puts it on top.
    /// Each pixel's colour gives its tile: the textured kinds, an exit (leading
    /// to the next of `exits`, taken from its back), the player's spawn (no
    /// tile; the player starts there), or nothing. A mostly opaque pixel makes
    /// its tile solid; an exit blocks only in the middle half of its tile.
    pub fn load_layer(&mut self, img: &TileGrid, exits: &mut Vec<String>)
        requires
            img.wf(),
            old(self).tile_size > 0,
            img.width * old(self).tile_size <= i32::MAX,
            img.height * old(self).tile_size <= i32::MAX,
            old(exits)@.len() >= exits_before(*img, 0, img.height as int),
        ensures
            final(self).tile_size == old(self).tile_size,
            final(self).tiles@.len() == old(self).tiles@.len() + 1,
            forall|i: int| 0 <= i < old(self).tiles@.len() ==> #[trigger] final(self).tiles@[i] == old(self).tiles@[i],
            ({
                let layer = final(self).tiles@.last();
                let ts = old(self).tile_size as int;
                let n = old(exits)@.len();
                &&& layer.wf()
                &&& layer.width == img.width
                &&& layer.height == img.height
                &&& forall|x: int, y: int|
                    0 <= x < img.width && 0 <= y < img.height ==> cell_ok(
                        #[trigger] layer.cell(x, y),
                        img.at(x, y),
                        x,
                        y,
                        ts,
                        old(exits)@[n - 1 - exits_before(*img, x, y)]@,
                    )
            }),
            final(self).player_spawn == spawn_before(
                *img,
                0,
                img.height as int,
                old(self).tile_size as int,
                old(self).player_spawn,
            ),
            final(exits)@ == old(exits)@.take(old(exits)@.len() - exits_before(*img, 0, img.height as int)),
    {
        let ts = self.tile_size;
        let ghost old_exits = exits@;
        let ghost n = old_exits.len();
        let ghost init = self.player_spawn;
        let mut spawn = self.player_spawn;
        let mut rows: Vec<Vec<Option<Tile>>> = Vec::new();
        let mut y: usize = 0;
        while y < img.height
            invariant
                img.wf(),
                ts > 0,
                img.width * ts <= i32::MAX,
                img.height * ts <= i32::MAX,
                y <= img.height,
                n == old_exits.len(),
                n >= exits_before(*img, 0, img.height as int),
                exits_before(*img, 0, y as int) <= exits_before(*img, 0, img.height as int),
                exits@ == old_exits.take(n - exits_before(*img, 0, y as int)),
                spawn == spawn_before(*img, 0, y as int, ts as int, init),
                rows@.len() == y,
                forall|yy: int| 0 <= yy < y ==> (#[trigger] rows@[yy])@.len() == img.width,
                forall|xx: int, yy: int|
                    0 <= xx < img.width && 0 <= yy < y ==> cell_ok(
                        #[trigger] rows@[yy]@[xx],
                        img.at(xx, yy),
                        xx,
                        yy,
                        ts as int,
                        old_exits[n - 1 - exits_before(*img, xx, yy)]@,
                    ),
            decreases img.height - y,
        {
            proof {
                lemma_exits_monotone(*img, 0, y as int, 0, img.height as int);
            }
            let mut row: Vec<Option<Tile>> = Vec::new();
            let mut x: usize = 0;
            while x < img.width
                invariant
                    img.wf(),
                    ts > 0,
                    img.width * ts <= i32::MAX,
                    img.height * ts <= i32::MAX,
                    y < img.height,
                    x <= img.width,
                    n == old_exits.len(),
                    n >= exits_before(*img, 0, img.height as int),
                    exits_before(*img, x as int, y as int) <= exits_before(*img, 0, img.height as int),
                    exits@ == old_exits.take(n - exits_before(*img, x as int, y as int)),
                    spawn == spawn_before(*img, x as int, y as int, ts as int, init),
                    row@.len() == x,
                    forall|xx: int|
                        0 <= xx < x ==> cell_ok(
                            #[trigger] row@[xx],
                            img.at(xx, y as int),
                            xx,
                            y as int,
                            ts as int,
                            old_exits[n - 1 - exits_before(*img, xx, y as int)]@,
                        ),
                decreases img.width - x,
            {
                proof {
                    lemma_exits_monotone(*img, x as int + 1, y as int, 0, img.height as int);
                    assert((x as int) * (ts as int) + ts <= (img.width as int) * (ts as int)) by (nonlinear_arith)
                        requires
                            x < img.width,
                            ts > 0,
                    ;
                    assert((y as int) * (ts as int) + ts <= (img.height as int) * (ts as int)) by (nonlinear_arith)
                        requires
                            y < img.height,
                            ts > 0,
                    ;
                    assert(img.width as int <= (img.width as int) * (ts as int)) by (nonlinear_arith)
                        requires
                            ts > 0,
                    ;
                    assert(img.height as int <= (img.height as int) * (ts as int)) by (nonlinear_arith)
                        requires
                            ts > 0,
                    ;
                }
                let c = img.tiles[y][x];
                let px = x as i32 * ts;
                let py = y as i32 * ts;
                let rgb = (c[0], c[1], c[2]);
                let solid = if c[3] >= 128 {
                    Some(TileBox { x: px, y: py, w: ts as u32, h: ts as u32 })
                } else {
                    None
                };
                let ghost before_exits = exits@;
                let cell = match plain_tile_of(rgb) {
                    Some((kind, path)) => {
                        let mut tile = Tile::new(px, py, ts as u32, kind, solid);
                        tile.texture_data = Some(TextureData::new(String::from_str(path)));
                        Some(tile)
                    },
                    None => {
                        if same_rgb(rgb, PLAYER_SPAWN_COLOR) {
                            spawn = (px, py);
                            None
                        } else if same_rgb(rgb, EXIT_COLOR) {
                            let last = exits.pop().unwrap();
                            proof {
                                assert(last@ == old_exits[n - 1 - exits_before(*img, x as int, y as int)]@);
                            }
                            let exit_bb = TileBox { x: px + ts / 4, y: py + ts / 4, w: (ts / 2) as u32, h: (ts / 2) as u32 };
                            Some(Tile::new(px, py, ts as u32, TileType::Exit(ExitTile { next_level: last, locked: false }), Some(exit_bb)))
                        } else {
                            None
                        }
                    },
                };
                proof {
                    assert(rgb == rgb_of(img.at(x as int, y as int)));
                    assert(exits@ == old_exits.take(n - exits_before(*img, x as int + 1, y as int)));
                }
                row.push(cell);
                x = x + 1;
            }
            rows.push(row);
            proof {
                assert(exits_before(*img, 0, y as int + 1) == exits_before(*img, img.width as int, y as int));
                assert(spawn_before(*img, 0, y as int + 1, ts as int, init) == spawn_before(*img, img.width as int, y as int, ts as int, init));
            }
            y = y + 1;
        }
        self.tiles.push(Layer { width: img.width, height: img.height, cells: rows });
        self.player_spawn = spawn;
    }
}

/// Exits before a later position are at least as many.
proof fn lemma_exits_monotone(img: TileGrid, x1: int, y1: int, x2: int, y2: int)
    requires
        0 <= x1 <= img.width,
        0 <= y1,
        0 <= x2 <= img.width,
        y1 < y2 || (y1 == y2 && x1 <= x2),
    ensures
        exits_before(img, x1, y1) <= exits_before(img, x2, y2),
    decreases y2, x2,
{
    if y1 == y2 && x1 == x2 {
    } else if x2 == 0 {
        lemma_exits_monotone(img, x1, y1, img.width as int, y2 - 1);
    } else {
        lemma_exits_monotone(img, x1, y1, x2 - 1, y2);
    }
}

/// The tile of `layer` at tile coordinates `c`, if any.
pub open spec fn tile_in(layer: Layer, c: (int, int)) -> Option<Tile> {
    if 0 <= c.0 < layer.width && 0 <= c.1 < layer.height {
        layer.cell(c.0, c.1)
    } else {
        None
    }
}

impl Level {
    /// The tile side is positive and every layer is well formed.
    pub open spec fn wf(&self) -> bool {
        &&& self.tile_size > 0
        &&& forall|i: int| 0 <= i < self.tiles@.len() ==> (#[trigger] self.tiles@[i]).wf()
    }

    /// Some layer has a tile at tile coordinates `c`, and none of the tiles
    /// there blocks.
    pub open spec fn passable_cell(&self, c: (int, int)) -> bool {
        &&& exists|i: int| 0 <= i < self.tiles@.len() && (#[trigger] tile_in(self.tiles@[i], c)) is Some
        &&& forall|i: int|
            0 <= i < self.tiles@.len() && (#[trigger] tile_in(self.tiles@[i], c)) is Some ==> tile_in(
                self.tiles@[i],
                c,
            )->0.bounding_box is None
    }

    /// Whether the tile at tile coordinates `(x, y)` can be walked on.
    pub fn is_passable(&self, x: i64, y: i64) -> (ok: bool)
        requires
            self.wf(),
        ensures
            ok == self.passable_cell((x as int, y as int)),
    {
        let mut exists = false;
        let mut obstacle = false;
        let mut i: usize = 0;
        while i < self.tiles.len()
            invariant
                self.wf(),
                i <= self.tiles@.len(),
                exists == exists|j: int| 0 <= j < i && (#[trigger] tile_in(self.tiles@[j], (x as int, y as int))) is Some,
                obstacle == exists|j: int|
                    0 <= j < i && (#[trigger] tile_in(self.tiles@[j], (x as int, y as int))) is Some && tile_in(
                        self.tiles@[j],
                        (x as int, y as int),
                    )->0.bounding_box is Some,
            decreases self.tiles@.len() - i,
        {
            let layer = &self.tiles[i];
            assert(layer.wf());
            let ghost c = (x as int, y as int);
            if 0 <= x && 0 <= y && (x as u64) < (layer.width as u64) && (y as u64) < (layer.height as u64) {
                match &layer.cells[y as usize][x as usize] {
                    Some(t) => {
                        assert(tile_in(self.tiles@[i as int], c) == Some(*t));
                        exists = true;
                        if t.bounding_box.is_some() {
                            obstacle = true;
                        }
                    },
                    None => {
                        assert(tile_in(self.tiles@[i as int], c) is None);
                    },
                }
            } else {
                assert(tile_in(self.tiles@[i as int], c) is None);
            }
            i = i + 1;
        }
        exists && !obstacle
    }
}

impl Level {
    /// `v` rounded toward zero to a multiple of the tile side: the corner of
    /// the tile a pixel coordinate `v` falls in, for `v >= 0`.
    pub fn snap_coordinate(&self, v: i32) -> (snapped: i32)
        requires
            self.tile_size > 0,
        ensures
            snapped % self.tile_size == 0,
            v >= 0 ==> snapped == (v / self.tile_size) * self.tile_size,
            v < 0 ==> snapped == -(((-(v as int)) / (self.tile_size as int)) * self.tile_size),
    {
        let ts = self.tile_size;
        if v >= 0 {
            let q = v / ts;
            proof {
                assert(q * ts <= v) by (nonlinear_arith)
                    requires
                        q == v / ts,
                        ts > 0,
                        v >= 0,
                ;
                vstd::arithmetic::div_mod::lemma_mod_multiples_basic(q as int, ts as int);
            }
            q * ts
        } else {
            let q = (-(v as i64)) / (ts as i64);
            proof {
                assert(q * ts <= -(v as int)) by (nonlinear_arith)
                    requires
                        q == (-(v as int)) / (ts as int),
                        ts > 0,
                        v < 0,
                ;
                vstd::arithmetic::div_mod::lemma_mod_multiples_basic(-q, ts as int);
                assert((-q) * ts == -(q * ts)) by (nonlinear_arith);
            }
            (-(q * ts as i64)) as i32
        }
    }
}

/// The path of a level's exits file, from the path of its first layer: the
/// last five characters (the layer's number and ".png") replaced by "exits.txt".
pub fn exits_path(path: &str) -> (exits: String)
    requires
        path@.len() >= 5,
    ensures
        exits@ == path@.take(path@.len() - 5) + "exits.txt"@,
{
    let n = path.unicode_len();
    let stem = path.substring_char(0, n - 5);
    let mut exits = String::from_str(stem);
    exits.append("exits.txt");
    exits
}

/// The path of layer `i` of a level, from the path of its first layer: the
/// last five characters replaced by `i` and ".png".
pub fn layer_path(path: &str, i: u32) -> (layer: String)
    requires
        path@.len() >= 5,
    ensures
        layer@ == path@.take(path@.len() - 5) + decimal(i as nat) + ".png"@,
{
    let n = path.unicode_len();
    let stem = path.substring_char(0, n - 5);
    let mut layer = String::from_str(stem);
    push_decimal(&mut layer, i as u128);
    layer.append(".png");
    layer
}

} // verus!
