use vstd::prelude::*;
use vstd::string::*;
use std::collections::VecDeque;
use std::path::Path;
use crate::text::{parse_i32, parsed_i32};
use vstd::set_lib::*;
use crate::random::{pick, shuffle};

verus! {

/// An RGBA colour of one tile.
pub type Rgba = [u8; 4];

/// A tile is walkable when it is mostly transparent (alpha below 128).
pub open spec fn walkable(c: Rgba) -> bool {
    c[3] < 128
}

/// `a` and `b` share a side.
pub open spec fn side_by_side(a: (int, int), b: (int, int)) -> bool {
    ||| a.0 == b.0 && (a.1 - b.1 == 1 || b.1 - a.1 == 1)
    ||| a.1 == b.1 && (a.0 - b.0 == 1 || b.0 - a.0 == 1)
}

/// A grid of tiles, one colour per tile, stored row by row.
pub struct TileGrid {
    pub width: usize,
    pub height: usize,
    pub tiles: Vec<Vec<Rgba>>,
}

impl TileGrid {
    /// The grid has `height` rows of `width` tiles each.
    pub open spec fn wf(&self) -> bool {
        &&& self.tiles@.len() == self.height
        &&& forall|y: int| 0 <= y < self.height ==> (#[trigger] self.tiles@[y])@.len() == self.width
    }

    /// The colour at column `x` of row `y`.
    pub open spec fn at(&self, x: int, y: int) -> Rgba {
        self.tiles@[y]@[x]
    }

    pub open spec fn in_grid(&self, x: int, y: int) -> bool {
        0 <= x < self.width && 0 <= y < self.height
    }

    pub open spec fn walkable_at(&self, c: (int, int)) -> bool {
        self.in_grid(c.0, c.1) && walkable(self.at(c.0, c.1))
    }

    /// A walk: a non-empty sequence of walkable tiles, each beside the previous one.
    pub open spec fn is_walk(&self, p: Seq<(int, int)>) -> bool {
        &&& p.len() > 0
        &&& forall|i: int| 0 <= i < p.len() ==> self.walkable_at(#[trigger] p[i])
        &&& forall|i: int| 0 <= i < p.len() - 1 ==> side_by_side(#[trigger] p[i], p[i + 1])
    }

    /// Some walk leads from `a` to `b`.
    pub open spec fn connects(&self, a: (int, int), b: (int, int)) -> bool {
        exists|p: Seq<(int, int)>| #[trigger] self.is_walk(p) && p[0] == a && p.last() == b
    }

    /// There is at least one walkable tile, and every walkable tile can be reached
    /// from every other one.
    pub open spec fn fully_connected(&self) -> bool {
        &&& exists|c: (int, int)| self.walkable_at(c)
        &&& forall|a: (int, int), b: (int, int)|
            self.walkable_at(a) && self.walkable_at(b) ==> #[trigger] self.connects(a, b)
    }

    /// An empty grid: every tile is transparent black.
    pub fn new(width: usize, height: usize) -> (grid: TileGrid)
        ensures
            grid.wf(),
            grid.width == width,
            grid.height == height,
            forall|x: int, y: int|
                0 <= x < width && 0 <= y < height ==> #[trigger] grid.at(x, y) == [0u8, 0, 0, 0],
    {
        let mut tiles: Vec<Vec<Rgba>> = Vec::new();
        let mut y: usize = 0;
        while y < height
            invariant
                y <= height,
                tiles@.len() == y,
                forall|j: int|
                    0 <= j < y ==> (#[trigger] tiles@[j])@ =~= Seq::new(
                        width as nat,
                        |i: int| [0u8, 0, 0, 0],
                    ),
            decreases height - y,
        {
            let mut row: Vec<Rgba> = Vec::new();
            let mut x: usize = 0;
            while x < width
                invariant
                    x <= width,
                    row@ =~= Seq::new(x as nat, |i: int| [0u8, 0, 0, 0]),
                decreases width - x,
            {
                row.push([0u8, 0, 0, 0]);
                x = x + 1;
            }
            tiles.push(row);
            y = y + 1;
        }
        TileGrid { width, height, tiles }
    }

    proof fn lemma_walk_reverse(&self, p: Seq<(int, int)>)
        requires
            self.is_walk(p),
        ensures
            self.is_walk(p.reverse()),
            p.reverse()[0] == p.last(),
            p.reverse().last() == p[0],
    {
        let r = p.reverse();
        assert forall|i: int| 0 <= i < r.len() implies self.walkable_at(#[trigger] r[i]) by {
            assert(r[i] == p[p.len() - 1 - i]);
        }
        assert forall|i: int| 0 <= i < r.len() - 1 implies side_by_side(#[trigger] r[i], r[i + 1]) by {
            assert(r[i] == p[p.len() - 1 - i]);
            assert(r[i + 1] == p[p.len() - 2 - i]);
            assert(side_by_side(p[p.len() - 2 - i], p[p.len() - 1 - i]));
        }
    }

    proof fn lemma_walk_join(&self, p: Seq<(int, int)>, q: Seq<(int, int)>)
        requires
            self.is_walk(p),
            self.is_walk(q),
            p.last() == q[0],
        ensures
            self.is_walk(p + q.drop_first()),
            (p + q.drop_first())[0] == p[0],
            (p + q.drop_first()).last() == q.last(),
    {
        let r = p + q.drop_first();
        assert forall|i: int| 0 <= i < r.len() implies self.walkable_at(#[trigger] r[i]) by {
            if i < p.len() {
                assert(r[i] == p[i]);
            } else {
                assert(r[i] == q[i - p.len() + 1]);
            }
        }
        assert forall|i: int| 0 <= i < r.len() - 1 implies side_by_side(#[trigger] r[i], r[i + 1]) by {
            if i < p.len() - 1 {
                assert(r[i] == p[i]);
                assert(r[i + 1] == p[i + 1]);
            } else if i == p.len() - 1 {
                assert(r[i] == q[0]);
                assert(r[i + 1] == q[1]);
            } else {
                assert(r[i] == q[i - p.len() + 1]);
                assert(r[i + 1] == q[i - p.len() + 2]);
            }
        }
        if q.len() == 1 {
            assert(r =~= p);
        } else {
            assert(r.last() == q.last());
        }
    }

    /// Every tile of a walk that starts inside a set closed under stepping to
    /// walkable neighbours lies in that set.
    proof fn lemma_closed_set_traps_walks(&self, s: Set<(int, int)>, p: Seq<(int, int)>, k: int)
        requires
            self.is_walk(p),
            s.contains(p[0]),
            forall|c: (int, int), d: (int, int)|
                #![trigger side_by_side(c, d)]
                s.contains(c) && side_by_side(c, d) && self.walkable_at(d) ==> s.contains(d),
            0 <= k < p.len(),
        ensures
            s.contains(p[k]),
        decreases k,
    {
        if k > 0 {
            self.lemma_closed_set_traps_walks(s, p, k - 1);
            assert(side_by_side(p[k - 1], p[k]));
            assert(self.walkable_at(p[k]));
        }
    }

    /// This grid with a border one tile wide of `tile_color` all around it.
    pub fn wrap_edge(&self, tile_color: Rgba) -> (wrapped: TileGrid)
        requires
            self.wf(),
            self.width + 2 <= usize::MAX,
            self.height + 2 <= usize::MAX,
        ensures
            wrapped.wf(),
            wrapped.width == self.width + 2,
            wrapped.height == self.height + 2,
            forall|x: int, y: int|
                0 <= x < wrapped.width && 0 <= y < wrapped.height ==> #[trigger] wrapped.at(x, y) == (
                if 1 <= x <= self.width && 1 <= y <= self.height {
                    self.at(x - 1, y - 1)
                } else {
                    tile_color
                }),
    {
        let height = self.height;
        let width = self.width;
        let mut new_grid: Vec<Vec<Rgba>> = Vec::new();
        let mut y: usize = 0;
        while y < height + 2
            invariant
                self.wf(),
                width == self.width,
                height == self.height,
                width + 2 <= usize::MAX,
                height + 2 <= usize::MAX,
                y <= height + 2,
                new_grid@.len() == y,
                forall|j: int| 0 <= j < y ==> (#[trigger] new_grid@[j])@.len() == width + 2,
                forall|i: int, j: int|
                    0 <= j < y && 0 <= i < width + 2 ==> #[trigger] new_grid@[j]@[i] == (if 1 <= i <= width
                        && 1 <= j <= height {
                        self.at(i - 1, j - 1)
                    } else {
                        tile_color
                    }),
            decreases height + 2 - y,
        {
            let mut row: Vec<Rgba> = Vec::new();
            let mut x: usize = 0;
            while x < width + 2
                invariant
                    self.wf(),
                    width == self.width,
                    height == self.height,
                    width + 2 <= usize::MAX,
                    y < height + 2,
                    x <= width + 2,
                    row@.len() == x,
                    forall|i: int|
                        0 <= i < x ==> #[trigger] row@[i] == (if 1 <= i <= width && 1 <= y <= height {
                            self.at(i - 1, y - 1)
                        } else {
                            tile_color
                        }),
                decreases width + 2 - x,
            {
                if 1 <= x && x <= width && 1 <= y && y <= height {
                    row.push(self.tiles[y - 1][x - 1]);
                } else {
                    row.push(tile_color);
                }
                x = x + 1;
            }
            new_grid.push(row);
            y = y + 1;
        }
        TileGrid { width: width + 2, height: height + 2, tiles: new_grid }
    }

    /// The picture of this grid, each tile drawn as a square of `tile_size`
    /// by `tile_size` pixels in its colour.
    pub fn scaled(&self, tile_size: usize) -> (picture: TileGrid)
        requires
            self.wf(),
            tile_size > 0,
            self.width * tile_size <= usize::MAX,
            self.height * tile_size <= usize::MAX,
        ensures
            picture.wf(),
            picture.width == self.width * tile_size,
            picture.height == self.height * tile_size,
            forall|x: int, y: int|
                picture.in_grid(x, y) ==> #[trigger] picture.at(x, y) == self.at(x / tile_size as int, y / tile_size as int),
    {
        let width = self.width * tile_size;
        let height = self.height * tile_size;
        let mut pixels: Vec<Vec<Rgba>> = Vec::new();
        let mut y: usize = 0;
        while y < height
            invariant
                self.wf(),
                tile_size > 0,
                width == self.width * tile_size,
                height == self.height * tile_size,
                y <= height,
                pixels@.len() == y,
                forall|j: int| 0 <= j < y ==> (#[trigger] pixels@[j])@.len() == width,
                forall|i: int, j: int|
                    0 <= j < y && 0 <= i < width ==> #[trigger] pixels@[j]@[i] == self.at(
                        i / tile_size as int,
                        j / tile_size as int,
                    ),
            decreases height - y,
        {
            let ty = y / tile_size;
            assert(ty < self.height) by (nonlinear_arith)
                requires
                    ty == y / tile_size,
                    y < self.height * tile_size,
                    tile_size > 0,
            ;
            let mut row: Vec<Rgba> = Vec::new();
            let mut x: usize = 0;
            while x < width
                invariant
                    self.wf(),
                    tile_size > 0,
                    width == self.width * tile_size,
                    ty < self.height,
                    ty == y / tile_size,
                    x <= width,
                    row@.len() == x,
                    forall|i: int| 0 <= i < x ==> #[trigger] row@[i] == self.at(i / tile_size as int, ty as int),
                decreases width - x,
            {
                let tx = x / tile_size;
                assert(tx < self.width) by (nonlinear_arith)
                    requires
                        tx == x / tile_size,
                        x < self.width * tile_size,
                        tile_size > 0,
                ;
                row.push(self.tiles[ty][tx]);
                x = x + 1;
            }
            pixels.push(row);
            y = y + 1;
        }
        TileGrid { width, height, tiles: pixels }
    }

    /// Paints the tile at `(x + 1, y + 1)`: where a tile `(x, y)` of the grid
    /// before wrapping lies after `wrap_edge`.
    pub fn place_spawn_tile(&mut self, pos: (usize, usize), color: Rgba)
        requires
            old(self).wf(),
            pos.1 + 1 < old(self).height,
            pos.0 + 1 < old(self).width,
        ensures
            final(self).wf(),
            final(self).width == old(self).width,
            final(self).height == old(self).height,
            forall|x: int, y: int|
                final(self).in_grid(x, y) ==> #[trigger] final(self).at(x, y) == (if x == pos.0 + 1 && y == pos.1 + 1 {
                    color
                } else {
                    old(self).at(x, y)
                }),
    {
        let (x, y) = pos;
        let ghost before = self.tiles@;
        self.tiles[y + 1][x + 1] = color;
        assert forall|x2: int, y2: int| self.in_grid(x2, y2) implies #[trigger] self.at(x2, y2) == (if x2 == x + 1 && y2 == y + 1 {
            color
        } else {
            old(self).at(x2, y2)
        }) by {
            if y2 != y + 1 {
                assert(self.tiles@[y2] == before[y2]);
            }
        }
    }

    /// Paints a tile on the border that `wrap_edge` added: beside `(x, y)` across
    /// the side `edge`, or at `(x + 1, y + 1)` when no side is given.
    pub fn place_tile_on_edge(&mut self, edge: Option<Edge>, pos: (usize, usize), color: Rgba)
        requires
            old(self).wf(),
            old(self).in_grid(edge_target(edge, pos.0 as int, pos.1 as int).0, edge_target(edge, pos.0 as int, pos.1 as int).1),
        ensures
            final(self).wf(),
            final(self).width == old(self).width,
            final(self).height == old(self).height,
            forall|x: int, y: int|
                final(self).in_grid(x, y) ==> #[trigger] final(self).at(x, y) == (if (x, y) == edge_target(edge, pos.0 as int, pos.1 as int) {
                    color
                } else {
                    old(self).at(x, y)
                }),
    {
        let (x, y) = pos;
        let (tx, ty) = match edge {
            Some(Edge::Bottom) => (x + 1, y + 2),
            Some(Edge::Top) => (x + 1, 0),
            Some(Edge::Left) => (0, y + 1),
            Some(Edge::Right) => (x + 2, y + 1),
            None => (x + 1, y + 1),
        };
        let ghost before = self.tiles@;
        self.tiles[ty][tx] = color;
        assert forall|x2: int, y2: int| self.in_grid(x2, y2) implies #[trigger] self.at(x2, y2) == (if (x2, y2) == edge_target(edge, x as int, y as int) {
            color
        } else {
            old(self).at(x2, y2)
        }) by {
            if y2 != ty {
                assert(self.tiles@[y2] == before[y2]);
            }
        }
    }

    /// `(x, y)` holds the spawn colour and no tile before it in reading order does.
    pub open spec fn first_spawn(&self, x: int, y: int) -> bool {
        &&& self.in_grid(x, y)
        &&& self.at(x, y) == SPAWN_RGBA
        &&& forall|i: int, j: int|
            self.in_grid(i, j) && (j < y || (j == y && i < x)) ==> #[trigger] self.at(i, j) != SPAWN_RGBA
    }

    /// The column and row of the first tile, in reading order, that has the spawn colour.
    pub fn read_spawn(&self) -> (spawn: (i32, i32))
        requires
            self.wf(),
            exists|x: int, y: int| self.in_grid(x, y) && #[trigger] self.at(x, y) == SPAWN_RGBA,
        ensures
            exists|x: int, y: int| #[trigger] self.first_spawn(x, y) && spawn == (x as i32, y as i32),
    {
        let height = self.height;
        let width = self.width;
        let mut ty: usize = 0;
        while ty < height
            invariant
                self.wf(),
                width == self.width,
                height == self.height,
                ty <= height,
                exists|x: int, y: int| self.in_grid(x, y) && #[trigger] self.at(x, y) == SPAWN_RGBA,
                forall|i: int, j: int| self.in_grid(i, j) && j < ty ==> #[trigger] self.at(i, j) != SPAWN_RGBA,
            decreases height - ty,
        {
            let mut tx: usize = 0;
            while tx < width
                invariant
                    self.wf(),
                    width == self.width,
                    height == self.height,
                    ty < height,
                    tx <= width,
                    forall|i: int, j: int|
                        self.in_grid(i, j) && (j < ty || (j == ty && i < tx)) ==> #[trigger] self.at(i, j) != SPAWN_RGBA,
                decreases width - tx,
            {
                if same_colour(&self.tiles[ty][tx], &SPAWN_RGBA) {
                    assert(self.first_spawn(tx as int, ty as int));
                    return (tx as i32, ty as i32);
                }
                tx = tx + 1;
            }
            ty = ty + 1;
        }
        assert(false);
        (0, 0)
    }

    /// `c` is walkable and lies on side `e`.
    pub open spec fn walkable_on(&self, e: Edge, c: (int, int)) -> bool {
        on_edge(e, c, self.width as int, self.height as int) && self.walkable_at(c)
    }

    /// The walkable tiles along side `e`, in order along the side.
    fn walkable_on_edge(&self, e: Edge) -> (tiles: Vec<(usize, usize)>)
        requires
            self.wf(),
            self.width >= 1,
            self.height >= 1,
        ensures
            forall|i: int| 0 <= i < tiles@.len() ==> #[trigger] self.walkable_on(e, (tiles@[i].0 as int, tiles@[i].1 as int)),
            forall|c: (int, int)| #[trigger] self.walkable_on(e, c) ==> tiles@.contains((c.0 as usize, c.1 as usize)),
    {
        let width = self.width;
        let height = self.height;
        let along = match e {
            Edge::Top | Edge::Bottom => width,
            Edge::Left | Edge::Right => height,
        };
        let mut tiles: Vec<(usize, usize)> = Vec::new();
        let mut i: usize = 0;
        while i < along
            invariant
                self.wf(),
                width == self.width,
                height == self.height,
                width >= 1,
                height >= 1,
                along == (match e {
                    Edge::Top | Edge::Bottom => width,
                    Edge::Left | Edge::Right => height,
                }),
                i <= along,
                forall|k: int| 0 <= k < tiles@.len() ==> #[trigger] self.walkable_on(e, (tiles@[k].0 as int, tiles@[k].1 as int)),
                forall|c: (int, int)|
                    #[trigger] self.walkable_on(e, c) && (match e {
                        Edge::Top | Edge::Bottom => c.0 < i,
                        Edge::Left | Edge::Right => c.1 < i,
                    }) ==> tiles@.contains((c.0 as usize, c.1 as usize)),
            decreases along - i,
        {
            let (x, y) = match e {
                Edge::Top => (i, 0),
                Edge::Bottom => (i, height - 1),
                Edge::Left => (0, i),
                Edge::Right => (width - 1, i),
            };
            if self.tiles[y][x][3] < 128 {
                let ghost before = tiles@;
                tiles.push((x, y));
                proof {
                    assert(tiles@[tiles@.len() - 1] == (x, y));
                    assert forall|c: (int, int)|
                        #[trigger] self.walkable_on(e, c) && (match e {
                            Edge::Top | Edge::Bottom => c.0 < i + 1,
                            Edge::Left | Edge::Right => c.1 < i + 1,
                        }) implies tiles@.contains((c.0 as usize, c.1 as usize)) by {
                        if (c.0 as usize, c.1 as usize) != (x, y) {
                            assert(before.contains((c.0 as usize, c.1 as usize)));
                            let j = choose|j: int| 0 <= j < before.len() && before[j] == (c.0 as usize, c.1 as usize);
                            assert(tiles@[j] == before[j]);
                        }
                    }
                }
            }
            i = i + 1;
        }
        tiles
    }

    /// Whether some walkable tile lies on side `e`.
    pub fn has_walkable_on_edge(&self, e: Edge) -> (found: bool)
        requires
            self.wf(),
            self.width >= 1,
            self.height >= 1,
        ensures
            found == exists|c: (int, int)| #[trigger] self.walkable_on(e, c),
    {
        let tiles = self.walkable_on_edge(e);
        if tiles.len() > 0 {
            assert(self.walkable_on(e, (tiles@[0].0 as int, tiles@[0].1 as int)));
            true
        } else {
            assert forall|c: (int, int)| !#[trigger] self.walkable_on(e, c) by {
                if self.walkable_on(e, c) {
                    assert(tiles@.contains((c.0 as usize, c.1 as usize)));
                }
            }
            false
        }
    }

    /// Picks at random a walkable tile on a side other than `forbidden_edge`, for
    /// the exit; the sides are tried in random order. Also gives the side.
    pub fn load_exit_tile(&self, forbidden_edge: Option<Edge>) -> (exit: ((usize, usize), Option<Edge>))
        requires
            self.wf(),
            self.width >= 1,
            self.height >= 1,
            exists|e: Edge, c: (int, int)| Some(e) != forbidden_edge && #[trigger] self.walkable_on(e, c),
        ensures
            exit.1 matches Some(e) && Some(e) != forbidden_edge && self.walkable_on(e, (exit.0.0 as int, exit.0.1 as int)),
    {
        let all = [Edge::Top, Edge::Bottom, Edge::Left, Edge::Right];
        let mut edge_tiles: Vec<Edge> = Vec::new();
        let mut k: usize = 0;
        while k < 4
            invariant
                k <= 4,
                all@ == seq![Edge::Top, Edge::Bottom, Edge::Left, Edge::Right],
                forall|j: int| 0 <= j < edge_tiles@.len() ==> Some(#[trigger] edge_tiles@[j]) != forbidden_edge,
                forall|j: int| 0 <= j < k && Some(all@[j]) != forbidden_edge ==> edge_tiles@.contains(#[trigger] all@[j]),
            decreases 4 - k,
        {
            if forbidden_edge != Some(all[k]) {
                let ghost before = edge_tiles@;
                edge_tiles.push(all[k]);
                proof {
                    assert forall|j: int| 0 <= j < k + 1 && Some(all@[j]) != forbidden_edge implies edge_tiles@.contains(#[trigger] all@[j]) by {
                        if j == k {
                            assert(edge_tiles@[edge_tiles@.len() - 1] == all@[j]);
                        } else {
                            let i = choose|i: int| 0 <= i < before.len() && before[i] == all@[j];
                            assert(edge_tiles@[i] == before[i]);
                        }
                    }
                }
            }
            k = k + 1;
        }
        let ghost unshuffled = edge_tiles@;
        shuffle(&mut edge_tiles);
        proof {
            broadcast use vstd::seq_lib::group_to_multiset_ensures;
            assert forall|j: int| 0 <= j < edge_tiles@.len() implies Some(#[trigger] edge_tiles@[j]) != forbidden_edge by {
                assert(edge_tiles@.contains(edge_tiles@[j]));
                assert(edge_tiles@.to_multiset().count(edge_tiles@[j]) > 0);
                assert(unshuffled.to_multiset().count(edge_tiles@[j]) > 0);
                assert(unshuffled.contains(edge_tiles@[j]));
            }
            assert forall|e: Edge| Some(e) != forbidden_edge implies #[trigger] edge_tiles@.contains(e) by {
                assert(all@.contains(e)) by {
                    match e {
                        Edge::Top => assert(all@[0] == e),
                        Edge::Bottom => assert(all@[1] == e),
                        Edge::Left => assert(all@[2] == e),
                        Edge::Right => assert(all@[3] == e),
                    }
                }
                let j = choose|j: int| 0 <= j < 4 && all@[j] == e;
                assert(unshuffled.contains(all@[j]));
                assert(unshuffled.to_multiset().count(e) > 0);
                assert(edge_tiles@.to_multiset().count(e) > 0);
            }
        }
        let mut i: usize = 0;
        while i < edge_tiles.len()
            invariant
                self.wf(),
                self.width >= 1,
                self.height >= 1,
                i <= edge_tiles@.len(),
                forall|j: int| 0 <= j < edge_tiles@.len() ==> Some(#[trigger] edge_tiles@[j]) != forbidden_edge,
                forall|e: Edge| Some(e) != forbidden_edge ==> #[trigger] edge_tiles@.contains(e),
                forall|j: int, c: (int, int)| 0 <= j < i ==> !#[trigger] self.walkable_on(edge_tiles@[j], c),
            decreases edge_tiles@.len() - i,
        {
            let edge = edge_tiles[i];
            let candidates = self.walkable_on_edge(edge);
            match pick(&candidates) {
                Some(exit_pos) => {
                    let ghost j = choose|j: int| 0 <= j < candidates@.len() && candidates@[j] == *exit_pos;
                    assert(self.walkable_on(edge, (candidates@[j].0 as int, candidates@[j].1 as int)));
                    return (*exit_pos, Some(edge));
                },
                None => {
                    assert forall|c: (int, int)| !#[trigger] self.walkable_on(edge, c) by {
                        if self.walkable_on(edge, c) {
                            assert(candidates@.contains((c.0 as usize, c.1 as usize)));
                        }
                    }
                },
            }
            i = i + 1;
        }
        proof {
            let (e, c) = choose|e: Edge, c: (int, int)| Some(e) != forbidden_edge && #[trigger] self.walkable_on(e, c);
            assert(edge_tiles@.contains(e));
            let j = choose|j: int| 0 <= j < edge_tiles@.len() && edge_tiles@[j] == e;
            assert(!self.walkable_on(edge_tiles@[j], c));
        }
        ((0, 0), None)
    }

    /// Picks at random a walkable tile on side `edge`, for the player's spawn.
    pub fn load_spawn(&self, edge: Edge) -> (spawn: (usize, usize))
        requires
            self.wf(),
            self.width >= 1,
            self.height >= 1,
            exists|c: (int, int)| #[trigger] self.walkable_on(edge, c),
        ensures
            self.walkable_on(edge, (spawn.0 as int, spawn.1 as int)),
    {
        let walkables = self.walkable_on_edge(edge);
        let ghost c = choose|c: (int, int)| #[trigger] self.walkable_on(edge, c);
        assert(walkables@.contains((c.0 as usize, c.1 as usize)));
        match pick(&walkables) {
            Some(p) => {
                let ghost j = choose|j: int| 0 <= j < walkables@.len() && walkables@[j] == *p;
                assert(self.walkable_on(edge, (walkables@[j].0 as int, walkables@[j].1 as int)));
                *p
            },
            None => (0, 0),
        }
    }

    /// Picks at random a walkable tile of the grid.
    pub fn random_walkable_tile(&self) -> (tile: (usize, usize))
        requires
            self.wf(),
            exists|c: (int, int)| self.walkable_at(c),
        ensures
            self.walkable_at((tile.0 as int, tile.1 as int)),
    {
        let mut walkable_positions: Vec<(usize, usize)> = Vec::new();
        let mut y: usize = 0;
        while y < self.height
            invariant
                self.wf(),
                y <= self.height,
                forall|k: int|
                    0 <= k < walkable_positions@.len() ==> self.walkable_at(
                        (#[trigger] walkable_positions@[k].0 as int, walkable_positions@[k].1 as int),
                    ),
                forall|c: (int, int)|
                    self.walkable_at(c) && c.1 < y ==> #[trigger] walkable_positions@.contains(
                        (c.0 as usize, c.1 as usize),
                    ),
            decreases self.height - y,
        {
            let mut x: usize = 0;
            while x < self.width
                invariant
                    self.wf(),
                    y < self.height,
                    x <= self.width,
                    forall|k: int|
                        0 <= k < walkable_positions@.len() ==> self.walkable_at(
                            (#[trigger] walkable_positions@[k].0 as int, walkable_positions@[k].1 as int),
                        ),
                    forall|c: (int, int)|
                        self.walkable_at(c) && (c.1 < y || (c.1 == y && c.0 < x))
                            ==> #[trigger] walkable_positions@.contains((c.0 as usize, c.1 as usize)),
                decreases self.width - x,
            {
                if self.tiles[y][x][3] < 128 {
                    let ghost before = walkable_positions@;
                    walkable_positions.push((x, y));
                    proof {
                        assert(walkable_positions@[walkable_positions@.len() - 1] == (x, y));
                        assert forall|c: (int, int)|
                            self.walkable_at(c) && (c.1 < y || (c.1 == y && c.0 < x + 1))
                                implies #[trigger] walkable_positions@.contains((c.0 as usize, c.1 as usize)) by {
                            if (c.0 as usize, c.1 as usize) != (x, y) {
                                assert(before.contains((c.0 as usize, c.1 as usize)));
                                let j = choose|j: int| 0 <= j < before.len() && before[j] == (c.0 as usize, c.1 as usize);
                                assert(walkable_positions@[j] == before[j]);
                            }
                        }
                    }
                }
                x = x + 1;
            }
            y = y + 1;
        }
        let ghost c = choose|c: (int, int)| self.walkable_at(c);
        assert(walkable_positions@.contains((c.0 as usize, c.1 as usize)));
        match pick(&walkable_positions) {
            Some(p) => {
                let ghost j = choose|j: int| 0 <= j < walkable_positions@.len() && walkable_positions@[j] == *p;
                assert(self.walkable_at((walkable_positions@[j].0 as int, walkable_positions@[j].1 as int)));
                *p
            },
            None => (0, 0),
        }
    }

    /// The set of walkable tiles.
    pub open spec fn walkable_set(&self) -> Set<(int, int)> {
        Set::new(|c: (int, int)| self.walkable_at(c))
    }

    /// The set of tiles a walk from `s` can reach.
    pub open spec fn reach_set(&self, s: (int, int)) -> Set<(int, int)> {
        Set::new(|c: (int, int)| self.connects(s, c))
    }

    /// Which tiles are walkable, and how many there are.
    #[verifier::loop_isolation(false)]
    fn walkable_map(&self) -> (res: (Vec<Vec<bool>>, usize))
        requires
            self.wf(),
            self.width * self.height <= usize::MAX,
        ensures
            res.0@.len() == self.height,
            forall|j: int| 0 <= j < self.height ==> (#[trigger] res.0@[j])@.len() == self.width,
            forall|i: int, j: int|
                0 <= j < self.height && 0 <= i < self.width ==> res.0@[j]@[i] == walkable(self.at(i, j)),
            self.walkable_set().finite(),
            self.walkable_set().len() == res.1,
    {
        let height = self.height;
        let width = self.width;
        let mut walkable_map: Vec<Vec<bool>> = Vec::new();
        let mut total_walkable: usize = 0;
        let ghost mut ws: Set<(int, int)> = Set::empty();
        assert(height * width == width * height) by (nonlinear_arith);
        let mut y: usize = 0;
        while y < height
            invariant
                y <= height,
                walkable_map@.len() == y,
                forall|j: int| 0 <= j < y ==> (#[trigger] walkable_map@[j])@.len() == width,
                forall|i: int, j: int|
                    0 <= j < y && 0 <= i < width ==> walkable_map@[j]@[i] == walkable(self.at(i, j)),
                ws.finite(),
                ws.len() == total_walkable,
                total_walkable <= y * width,
                forall|c: (int, int)| #[trigger] ws.contains(c) <==> (self.walkable_at(c) && c.1 < y),
            decreases height - y,
        {
            let mut row: Vec<bool> = Vec::new();
            let mut x: usize = 0;
            while x < width
                invariant
                    y < height,
                    x <= width,
                    row@.len() == x,
                    forall|i: int| 0 <= i < x ==> row@[i] == walkable(self.at(i, y as int)),
                    ws.finite(),
                    ws.len() == total_walkable,
                    total_walkable <= y * width + x,
                    forall|c: (int, int)|
                        #[trigger] ws.contains(c) <==> (self.walkable_at(c) && (c.1 < y || (c.1 == y
                            && c.0 < x))),
                decreases width - x,
            {
                let alpha = self.tiles[y][x][3];
                if alpha < 128 {
                    row.push(true);
                    proof {
                        assert(!ws.contains((x as int, y as int)));
                        ws = ws.insert((x as int, y as int));
                    }
                    assert(y * width + x < height * width) by (nonlinear_arith)
                        requires
                            y < height,
                            x < width,
                    ;
                    total_walkable = total_walkable + 1;
                } else {
                    row.push(false);
                }
                x = x + 1;
            }
            walkable_map.push(row);
            assert((y + 1) * width == y * width + width) by (nonlinear_arith);
            y = y + 1;
        }
        assert(ws =~= self.walkable_set());
        (walkable_map, total_walkable)
    }

    /// The first walkable tile in reading order, if any.
    #[verifier::loop_isolation(false)]
    fn first_walkable(&self, map: &Vec<Vec<bool>>) -> (start: Option<(usize, usize)>)
        requires
            map@.len() == self.height,
            forall|j: int| 0 <= j < self.height ==> (#[trigger] map@[j])@.len() == self.width,
            forall|i: int, j: int|
                0 <= j < self.height && 0 <= i < self.width ==> map@[j]@[i] == walkable(self.at(i, j)),
        ensures
            match start {
                Some(st) => self.walkable_at((st.0 as int, st.1 as int)),
                None => forall|c: (int, int)| !self.walkable_at(c),
            },
    {
        let height = self.height;
        let width = self.width;
        let mut start: Option<(usize, usize)> = None;
        let mut sy: usize = 0;
        while sy < height && start.is_none()
            invariant
                sy <= height,
                match start {
                    Some(st) => st.0 < width && st.1 < height && walkable(self.at(st.0 as int, st.1 as int)),
                    None => forall|c: (int, int)| self.walkable_at(c) ==> c.1 >= sy,
                },
            decreases height - sy,
        {
            let mut sx: usize = 0;
            while sx < width && start.is_none()
                invariant
                    sy < height,
                    sx <= width,
                    match start {
                        Some(st) => st.0 < width && st.1 < height && walkable(self.at(st.0 as int, st.1 as int)),
                        None => forall|c: (int, int)|
                            self.walkable_at(c) ==> c.1 > sy || (c.1 == sy && c.0 >= sx),
                    },
                decreases width - sx,
            {
                if map[sy][sx] {
                    start = Some((sx, sy));
                }
                sx = sx + 1;
            }
            sy = sy + 1;
        }
        start
    }

    /// Breadth-first search from `(sx, sy)`: how many tiles it reaches.
    #[verifier::loop_isolation(false)]
    #[verifier::spinoff_prover]
    #[verifier::rlimit(100)]
    fn count_reachable(&self, map: &Vec<Vec<bool>>, sx: usize, sy: usize, total_walkable: usize) -> (count: usize)
        requires
            self.wf(),
            self.width <= i32::MAX,
            self.height <= i32::MAX,
            map@.len() == self.height,
            forall|j: int| 0 <= j < self.height ==> (#[trigger] map@[j])@.len() == self.width,
            forall|i: int, j: int|
                0 <= j < self.height && 0 <= i < self.width ==> map@[j]@[i] == walkable(self.at(i, j)),
            self.walkable_set().finite(),
            self.walkable_set().len() == total_walkable,
            self.walkable_at((sx as int, sy as int)),
        ensures
            self.reach_set((sx as int, sy as int)).finite(),
            self.reach_set((sx as int, sy as int)).subset_of(self.walkable_set()),
            self.reach_set((sx as int, sy as int)).len() == count,
    {
        let height = self.height;
        let width = self.width;
        let ghost ws = self.walkable_set();
        let ghost s: (int, int) = (sx as int, sy as int);
        proof {
            let w = seq![s];
            assert(self.is_walk(w));
            assert(self.connects(s, s));
        }

        let mut visited: Vec<Vec<bool>> = Vec::new();
        let mut vy: usize = 0;
        while vy < height
            invariant
                vy <= height,
                visited@.len() == vy,
                forall|j: int| 0 <= j < vy ==> (#[trigger] visited@[j])@.len() == width,
                forall|i: int, j: int| 0 <= j < vy && 0 <= i < width ==> !visited@[j]@[i],
            decreases height - vy,
        {
            let mut row: Vec<bool> = Vec::new();
            let mut vx: usize = 0;
            while vx < width
                invariant
                    vx <= width,
                    row@.len() == vx,
                    forall|i: int| 0 <= i < vx ==> !row@[i],
                decreases width - vx,
            {
                row.push(false);
                vx = vx + 1;
            }
            visited.push(row);
            vy = vy + 1;
        }

        let mut queue: VecDeque<(usize, usize)> = VecDeque::new();
        queue.push_back((sx, sy));
        visited[sy][sx] = true;
        let mut visited_count: usize = 1;
        let ghost mut vs: Set<(int, int)> = Set::empty().insert(s);
        assert(vs.subset_of(ws));
        assert(queue@[0] == (sx, sy));
        assert(in_queue(queue@, s));

        while queue.len() > 0
            invariant
                visited@.len() == height,
                forall|j: int| 0 <= j < height ==> (#[trigger] visited@[j])@.len() == width,
                forall|i: int, j: int|
                    0 <= j < height && 0 <= i < width ==> visited@[j]@[i] == vs.contains((i, j)),
                vs.finite(),
                vs.len() == visited_count,
                vs.subset_of(ws),
                vs.contains(s),
                forall|c: (int, int)| #[trigger] vs.contains(c) ==> self.connects(s, c),
                forall|i: int|
                    0 <= i < queue@.len() ==> #[trigger] vs.contains(
                        (queue@[i].0 as int, queue@[i].1 as int),
                    ),
                forall|c: (int, int), d: (int, int)|
                    #![trigger side_by_side(c, d)]
                    vs.contains(c) && !in_queue(queue@, c) && side_by_side(c, d)
                        && self.walkable_at(d) ==> vs.contains(d),
            decreases (total_walkable - visited_count) * 2 + queue@.len(),
        {
            proof {
                lemma_len_subset(vs, ws);
            }
            let ghost q_before = queue@;
            let (x, y) = match queue.pop_front() {
                Some(c) => c,
                None => (0, 0),
            };
            let ghost cur: (int, int) = (x as int, y as int);
            let ghost q0 = queue@;
            let ghost vs0 = vs;
            let ghost count0 = visited_count;
            assert(q_before =~= seq![(x, y)] + q0);
            assert(q_before[0] == (x, y));
            assert(vs.contains(cur));
            assert(self.walkable_at(cur));
            let mut dir: usize = 0;
            while dir < 4
                invariant
                    dir <= 4,
                    x < width,
                    y < height,
                    visited@.len() == height,
                    forall|j: int| 0 <= j < height ==> (#[trigger] visited@[j])@.len() == width,
                    forall|i: int, j: int|
                        0 <= j < height && 0 <= i < width ==> visited@[j]@[i] == vs.contains((i, j)),
                    vs.finite(),
                    vs.len() == visited_count,
                    vs0.subset_of(vs),
                    vs.subset_of(ws),
                    forall|c: (int, int)| #[trigger] vs.contains(c) ==> self.connects(s, c),
                    q0.len() <= queue@.len(),
                    forall|i: int| 0 <= i < q0.len() ==> queue@[i] == q0[i],
                    queue@.len() - q0.len() == visited_count - count0,
                    forall|i: int|
                        0 <= i < queue@.len() ==> #[trigger] vs.contains(
                            (queue@[i].0 as int, queue@[i].1 as int),
                        ),
                    forall|c: (int, int)|
                        #[trigger] vs.contains(c) && !vs0.contains(c) ==> in_queue(queue@, c),
                    forall|k: int|
                        0 <= k < dir && #[trigger] self.walkable_at(step(cur, k)) ==> vs.contains(
                            step(cur, k),
                        ),
                decreases 4 - dir,
            {
                let mut inside = false;
                let mut nx: usize = 0;
                let mut ny: usize = 0;
                if dir == 0 {
                    if y > 0 {
                        inside = true;
                        nx = x;
                        ny = y - 1;
                    }
                } else if dir == 1 {
                    if x + 1 < width {
                        inside = true;
                        nx = x + 1;
                        ny = y;
                    }
                } else if dir == 2 {
                    if y + 1 < height {
                        inside = true;
                        nx = x;
                        ny = y + 1;
                    }
                } else {
                    if x > 0 {
                        inside = true;
                        nx = x - 1;
                        ny = y;
                    }
                }
                assert(inside ==> step(cur, dir as int) == (nx as int, ny as int) && nx < width && ny < height);
                assert(!inside ==> !self.in_grid(step(cur, dir as int).0, step(cur, dir as int).1));
                if inside && map[ny][nx] && !visited[ny][nx] {
                    let ghost d: (int, int) = (nx as int, ny as int);
                    proof {
                        let p = choose|p: Seq<(int, int)>|
                            #[trigger] self.is_walk(p) && p[0] == s && p.last() == cur;
                        let q = seq![cur, d];
                        assert(self.is_walk(q));
                        self.lemma_walk_join(p, q);
                        assert(self.connects(s, d));
                        assert(!vs.contains(d));
                        vs = vs.insert(d);
                        assert(ws.contains(d));
                        lemma_len_subset(vs, ws);
                    }
                    visited[ny][nx] = true;
                    visited_count = visited_count + 1;
                    let ghost qprev = queue@;
                    queue.push_back((nx, ny));
                    proof {
                        assert(queue@[queue@.len() - 1] == (nx, ny));
                        assert forall|c: (int, int)|
                            #[trigger] vs.contains(c) && !vs0.contains(c) implies in_queue(queue@, c) by {
                            if c == d {
                                assert(queue@[queue@.len() - 1] == (nx, ny));
                            } else {
                                assert(in_queue(qprev, c));
                                let i = choose|i: int|
                                    0 <= i < qprev.len() && qprev[i].0 == c.0 && qprev[i].1 == c.1;
                                assert(queue@[i] == qprev[i]);
                            }
                        }
                    }
                }
                dir = dir + 1;
            }
            proof {
                lemma_len_subset(vs, ws);
                assert(q_before.len() == q0.len() + 1);
                assert(vs.contains(s));
                assert forall|c: (int, int), d: (int, int)|
                    #![trigger side_by_side(c, d)]
                    vs.contains(c) && !in_queue(queue@, c) && side_by_side(c, d)
                        && self.walkable_at(d) implies vs.contains(d) by {
                    if c == cur {
                        assert(d == step(cur, 0) || d == step(cur, 1) || d == step(cur, 2) || d == step(cur, 3));
                    } else if vs0.contains(c) {
                        assert(!in_queue(q0, c)) by {
                            if in_queue(q0, c) {
                                let i = choose|i: int| 0 <= i < q0.len() && q0[i].0 == c.0 && q0[i].1 == c.1;
                                assert(queue@[i] == q0[i]);
                            }
                        }
                        assert(!in_queue(q_before, c)) by {
                            if in_queue(q_before, c) {
                                let i = choose|i: int|
                                    0 <= i < q_before.len() && q_before[i].0 == c.0 && q_before[i].1 == c.1;
                                if i > 0 {
                                    assert(q0[i - 1] == q_before[i]);
                                }
                            }
                        }
                    }
                }
            }
        }

        proof {
            assert forall|c: (int, int), d: (int, int)|
                #![trigger side_by_side(c, d)]
                vs.contains(c) && side_by_side(c, d) && self.walkable_at(d) implies vs.contains(d) by {
                assert(!in_queue(queue@, c));
            }
            assert forall|c: (int, int)| #[trigger] self.reach_set(s).contains(c) implies vs.contains(c) by {
                let p = choose|p: Seq<(int, int)>| #[trigger] self.is_walk(p) && p[0] == s && p.last() == c;
                self.lemma_closed_set_traps_walks(vs, p, p.len() - 1);
            }
            assert(vs =~= self.reach_set(s));
        }
        visited_count
    }

    /// Whether every walkable tile can be reached from every other walkable tile,
    /// moving only up, down, left and right over walkable tiles, and at least one
    /// walkable tile exists.
    pub fn is_fully_connected(&self) -> (connected: bool)
        requires
            self.wf(),
            self.width <= i32::MAX,
            self.height <= i32::MAX,
            self.width * self.height <= usize::MAX,
        ensures
            connected == self.fully_connected(),
    {
        let (map, total_walkable) = self.walkable_map();
        let (sx, sy) = match self.first_walkable(&map) {
            Some(st) => st,
            None => {
                return false;
            },
        };
        let visited_count = self.count_reachable(&map, sx, sy, total_walkable);
        let ghost s: (int, int) = (sx as int, sy as int);
        let ghost ws = self.walkable_set();
        let ghost rs = self.reach_set(s);
        if visited_count == total_walkable {
            proof {
                lemma_subset_equality(rs, ws);
                assert forall|a: (int, int), b: (int, int)|
                    self.walkable_at(a) && self.walkable_at(b) implies #[trigger] self.connects(a, b) by {
                    assert(ws.contains(a) && ws.contains(b));
                    assert(rs.contains(a) && rs.contains(b));
                    let pa = choose|p: Seq<(int, int)>| #[trigger] self.is_walk(p) && p[0] == s && p.last() == a;
                    let pb = choose|p: Seq<(int, int)>| #[trigger] self.is_walk(p) && p[0] == s && p.last() == b;
                    self.lemma_walk_reverse(pa);
                    self.lemma_walk_join(pa.reverse(), pb);
                }
            }
            true
        } else {
            proof {
                assert(exists|c: (int, int)| ws.contains(c) && !rs.contains(c)) by {
                    if forall|c: (int, int)| ws.contains(c) ==> rs.contains(c) {
                        assert(rs =~= ws);
                    }
                }
                let c = choose|c: (int, int)| ws.contains(c) && !rs.contains(c);
                assert(!self.connects(s, c));
                assert(self.walkable_at(s));
                assert(self.walkable_at(c));
            }
            false
        }
    }
}

/// The size of one sample tile in pixels.
pub const SAMPLE_TILE_SIZE: usize = 2;
/// The size of one level tile in pixels.
pub const TILE_SIZE: usize = 1;
/// Height of a generated level in tiles.
pub const GRID_HEIGHT: usize = 16;
/// Width of a generated level in tiles.
pub const GRID_WIDTH: usize = 20;

/// Colour of the exit tile.
pub const EXIT_RGBA: [u8; 4] = [64, 58, 171, 102];
/// Colour of the player's spawn tile.
pub const SPAWN_RGBA: [u8; 4] = [255, 0, 0, 102];
/// Colour of the wall wrapped around a level.
pub const WALL_RGBA: [u8; 4] = [50, 47, 77, 255];

/// A pattern: rows of RGBA colours.
pub type Pattern = Vec<Vec<Rgba>>;

/// The rows of a pattern as sequences.
pub open spec fn pattern_view(p: Pattern) -> Seq<Seq<Rgba>> {
    p@.map_values(|r: Vec<Rgba>| r@)
}

/// Whether two colours are the same.
pub fn same_colour(a: &Rgba, b: &Rgba) -> (same: bool)
    ensures
        same == (*a == *b),
{
    let same = a[0] == b[0] && a[1] == b[1] && a[2] == b[2] && a[3] == b[3];
    if same {
        assert(*a =~= *b);
    }
    same
}

/// A copy of a pattern.
pub fn copy_pattern(p: &Pattern) -> (copy: Pattern)
    ensures
        pattern_view(copy) == pattern_view(*p),
{
    let mut copy: Pattern = Vec::new();
    let mut y: usize = 0;
    while y < p.len()
        invariant
            y <= p@.len(),
            copy@.len() == y,
            forall|j: int| 0 <= j < y ==> (#[trigger] copy@[j])@ == p@[j]@,
        decreases p@.len() - y,
    {
        let mut row: Vec<Rgba> = Vec::new();
        let mut x: usize = 0;
        while x < p[y].len()
            invariant
                y < p@.len(),
                x <= p@[y as int]@.len(),
                row@ =~= p@[y as int]@.subrange(0, x as int),
            decreases p@[y as int]@.len() - x,
        {
            row.push(p[y][x]);
            x = x + 1;
        }
        copy.push(row);
        y = y + 1;
    }
    assert(pattern_view(copy) =~= pattern_view(*p));
    copy
}

/// A grid of patterns: rows of patterns.
pub type PatternGrid = Vec<Vec<Pattern>>;

/// Every row of `pg` has at least as many patterns as the first, and every
/// pattern has at least `n` rows of at least `n` colours.
pub open spec fn stampable(pg: PatternGrid, n: int) -> bool {
    &&& pg@.len() >= 1
    &&& forall|gy: int| 0 <= gy < pg@.len() ==> (#[trigger] pg@[gy])@.len() >= pg@[0]@.len()
    &&& forall|gy: int, gx: int|
        0 <= gy < pg@.len() && 0 <= gx < pg@[0]@.len() ==> {
            &&& (#[trigger] pg@[gy]@[gx])@.len() >= n
            &&& forall|dy: int| 0 <= dy < n ==> (#[trigger] pg@[gy]@[gx]@[dy])@.len() >= n
        }
}

/// The colour at `(x, y)` after the top-left `n` by `n` corner of each pattern of
/// `pg` is stamped at its place in the grid, in reading order, each stamp
/// covering those before it.
pub open spec fn stamped(pg: PatternGrid, n: int, x: int, y: int) -> Rgba {
    let h = pg@.len() as int;
    let w = pg@[0]@.len() as int;
    if n >= 1 && w >= 1 {
        let gy = if y < h - 1 { y } else { h - 1 };
        let gx = if x < w - 1 { x } else { w - 1 };
        pg@[gy]@[gx]@[y - gy]@[x - gx]
    } else {
        [0u8, 0, 0, 0]
    }
}

/// Stamps the top-left `n` by `n` corner of every pattern of `pattern_grid` at its
/// place, in reading order, later stamps covering earlier ones; tiles that no
/// stamp covers stay transparent black.
pub fn flatten_patterns_to_tile_grid(pattern_grid: &PatternGrid, n: usize) -> (grid: TileGrid)
    requires
        stampable(*pattern_grid, n as int),
        pattern_grid@.len() + n <= usize::MAX,
        pattern_grid@[0]@.len() + n <= usize::MAX,
        pattern_grid@[0]@.len() + n >= 1,
    ensures
        grid.wf(),
        grid.height == pattern_grid@.len() + n - 1,
        grid.width == pattern_grid@[0]@.len() + n - 1,
        forall|x: int, y: int|
            grid.in_grid(x, y) ==> #[trigger] grid.at(x, y) == stamped(*pattern_grid, n as int, x, y),
{
    let grid_height = pattern_grid.len();
    let grid_width = pattern_grid[0].len();
    let final_height = grid_height + n - 1;
    let final_width = grid_width + n - 1;
    let mut tiles: Vec<Vec<Rgba>> = Vec::new();
    let mut y: usize = 0;
    while y < final_height
        invariant
            stampable(*pattern_grid, n as int),
            grid_height == pattern_grid@.len(),
            grid_width == pattern_grid@[0]@.len(),
            final_height == grid_height + n - 1,
            final_width == grid_width + n - 1,
            y <= final_height,
            tiles@.len() == y,
            forall|j: int| 0 <= j < y ==> (#[trigger] tiles@[j])@.len() == final_width,
            forall|i: int, j: int|
                0 <= j < y && 0 <= i < final_width ==> #[trigger] tiles@[j]@[i] == stamped(
                    *pattern_grid,
                    n as int,
                    i,
                    j,
                ),
        decreases final_height - y,
    {
        let gy = if y < grid_height - 1 { y } else { grid_height - 1 };
        let mut row: Vec<Rgba> = Vec::new();
        let mut x: usize = 0;
        while x < final_width
            invariant
                stampable(*pattern_grid, n as int),
                grid_height == pattern_grid@.len(),
                grid_width == pattern_grid@[0]@.len(),
                final_height == grid_height + n - 1,
                final_width == grid_width + n - 1,
                y < final_height,
                gy == (if y < grid_height - 1 { y } else { (grid_height - 1) as usize }),
                x <= final_width,
                row@.len() == x,
                forall|i: int|
                    0 <= i < x ==> #[trigger] row@[i] == stamped(*pattern_grid, n as int, i, y as int),
            decreases final_width - x,
        {
            if n >= 1 && grid_width >= 1 {
                let gx = if x < grid_width - 1 { x } else { grid_width - 1 };
                let pattern = &pattern_grid[gy][gx];
                row.push(pattern[y - gy][x - gx]);
            } else {
                row.push([0u8, 0, 0, 0]);
            }
            x = x + 1;
        }
        tiles.push(row);
        y = y + 1;
    }
    TileGrid { width: final_width, height: final_height, tiles }
}

/// A `pattern_height` by `pattern_width` grid of patterns, each picked at random
/// from `patterns`.
pub fn generate_pattern_grid(patterns: &Vec<Pattern>, pattern_width: u32, pattern_height: u32) -> (grid: PatternGrid)
    requires
        patterns@.len() > 0,
    ensures
        grid@.len() == pattern_height,
        forall|gy: int| 0 <= gy < pattern_height ==> (#[trigger] grid@[gy])@.len() == pattern_width,
        forall|gy: int, gx: int|
            0 <= gy < pattern_height && 0 <= gx < pattern_width ==> #[trigger] one_of(grid@[gy]@[gx], patterns@),
{
    let mut grid: PatternGrid = Vec::new();
    let mut y: u32 = 0;
    while y < pattern_height
        invariant
            patterns@.len() > 0,
            y <= pattern_height,
            grid@.len() == y,
            forall|gy: int| 0 <= gy < y ==> (#[trigger] grid@[gy])@.len() == pattern_width,
            forall|gy: int, gx: int|
                0 <= gy < y && 0 <= gx < pattern_width ==> #[trigger] one_of(grid@[gy]@[gx], patterns@),
        decreases pattern_height - y,
    {
        let mut row: Vec<Pattern> = Vec::new();
        let mut x: u32 = 0;
        while x < pattern_width
            invariant
                patterns@.len() > 0,
                x <= pattern_width,
                row@.len() == x,
                forall|gx: int|
                    0 <= gx < x ==> #[trigger] one_of(row@[gx], patterns@),
            decreases pattern_width - x,
        {
            let pat = match pick(patterns) {
                Some(p) => p,
                None => &patterns[0],
            };
            let copy = copy_pattern(pat);
            proof {
                let k = choose|k: int| 0 <= k < patterns@.len() && patterns@[k] == *pat;
                assert(pattern_view(copy) == pattern_view(patterns@[k]));
                assert(one_of(copy, patterns@));
            }
            row.push(copy);
            x = x + 1;
        }
        let ghost before = grid@;
        grid.push(row);
        proof {
            assert forall|gy: int, gx: int|
                0 <= gy < y + 1 && 0 <= gx < pattern_width implies #[trigger] one_of(grid@[gy]@[gx], patterns@) by {
                if gy < y {
                    assert(grid@[gy] == before[gy]);
                } else {
                    assert(grid@[gy] == row);
                    assert(0 <= gx < row@.len());
                }
            }
        }
        y = y + 1;
    }
    grid
}

/// Every pattern of `patterns` has at least `n` rows of at least `n` colours.
pub open spec fn patterns_cover(patterns: Seq<Pattern>, n: int) -> bool {
    forall|k: int|
        0 <= k < patterns.len() ==> {
            &&& (#[trigger] patterns[k])@.len() >= n
            &&& forall|dy: int| 0 <= dy < n ==> (#[trigger] patterns[k]@[dy])@.len() >= n
        }
}

/// `grid` is what `flatten_patterns_to_tile_grid` makes of some
/// `(height - n + 1)` by `(width - n + 1)` grid of patterns, each one of `patterns`.
pub open spec fn stamped_from(grid: TileGrid, patterns: Seq<Pattern>, width: int, height: int, n: int) -> bool {
    exists|pg: PatternGrid| #[trigger] stamped_by(grid, pg, patterns, width, height, n)
}

/// `grid` is what `flatten_patterns_to_tile_grid` makes of `pg`, a
/// `(height - n + 1)` by `(width - n + 1)` grid of patterns, each one of `patterns`.
pub open spec fn stamped_by(grid: TileGrid, pg: PatternGrid, patterns: Seq<Pattern>, width: int, height: int, n: int) -> bool {
        {
            &&& pg@.len() == height - n + 1
            &&& forall|gy: int| 0 <= gy < height - n + 1 ==> (#[trigger] pg@[gy])@.len() == width - n + 1
            &&& forall|gy: int, gx: int|
                0 <= gy < height - n + 1 && 0 <= gx < width - n + 1 ==> #[trigger] one_of(pg@[gy]@[gx], patterns)
            &&& forall|x: int, y: int|
                grid.in_grid(x, y) ==> #[trigger] grid.at(x, y) == stamped(pg, n, x, y)
        }
}

/// One try of the overlap generator: stamps a `width` by `height` grid from
/// patterns picked at random, and tells whether its walkable tiles are all
/// connected.
pub fn generate_wfc_attempt(patterns: &Vec<Pattern>, width: u32, height: u32, n: usize) -> (res: (TileGrid, bool))
    requires
        patterns@.len() > 0,
        patterns_cover(patterns@, n as int),
        n <= width,
        n <= height,
        width <= i32::MAX,
        height <= i32::MAX,
        width * height <= usize::MAX,
    ensures
        res.0.wf(),
        res.0.width == width,
        res.0.height == height,
        stamped_from(res.0, patterns@, width as int, height as int, n as int),
        res.1 == res.0.fully_connected(),
{
    let pattern_grid = generate_pattern_grid(patterns, width - n as u32 + 1, height - n as u32 + 1);
    assert(pattern_grid@[0]@.len() == width - n + 1);
    proof {
        assert forall|gy: int, gx: int|
            0 <= gy < pattern_grid@.len() && 0 <= gx < pattern_grid@[0]@.len() implies {
                &&& (#[trigger] pattern_grid@[gy]@[gx])@.len() >= n
                &&& forall|dy: int| 0 <= dy < n ==> (#[trigger] pattern_grid@[gy]@[gx]@[dy])@.len() >= n
            } by {
            assert(one_of(pattern_grid@[gy]@[gx], patterns@));
            let k = choose|k: int|
                0 <= k < patterns@.len() && pattern_view(pattern_grid@[gy]@[gx]) == pattern_view(patterns@[k]);
            assert(pattern_view(pattern_grid@[gy]@[gx]).len() == pattern_grid@[gy]@[gx]@.len());
            assert forall|dy: int| 0 <= dy < n implies (#[trigger] pattern_grid@[gy]@[gx]@[dy])@.len() >= n by {
                assert(pattern_view(pattern_grid@[gy]@[gx])[dy] == pattern_grid@[gy]@[gx]@[dy]@);
                assert(pattern_view(patterns@[k])[dy] == patterns@[k]@[dy]@);
            }
        }
    }
    let tile_grid = flatten_patterns_to_tile_grid(&pattern_grid, n);
    assert(stamped_by(tile_grid, pattern_grid, patterns@, width as int, height as int, n as int));
    let connected = tile_grid.is_fully_connected();
    (tile_grid, connected)
}

/// A generated level: the tiles, with a wall around them and the exit in the
/// wall, and a second layer that marks the player's spawn.
pub struct OverlapLevel {
    pub level: TileGrid,
    pub spawn_layer: TileGrid,
}

/// `level` is `grid` with a wall around it, the exit painted beside `exit`
/// across side `e`.
pub open spec fn walled_with_exit(level: TileGrid, grid: TileGrid, e: Edge, exit: (int, int)) -> bool {
    forall|x: int, y: int|
        level.in_grid(x, y) ==> #[trigger] level.at(x, y) == (if (x, y) == edge_target(Some(e), exit.0, exit.1) {
            EXIT_RGBA
        } else if 1 <= x <= grid.width && 1 <= y <= grid.height {
            grid.at(x - 1, y - 1)
        } else {
            WALL_RGBA
        })
}

/// `layer` is transparent black but for the spawn colour at `(spawn.0 + 1, spawn.1 + 1)`.
pub open spec fn marks_spawn(layer: TileGrid, spawn: (int, int)) -> bool {
    forall|x: int, y: int|
        layer.in_grid(x, y) ==> #[trigger] layer.at(x, y) == (if x == spawn.0 + 1 && y == spawn.1 + 1 {
            SPAWN_RGBA
        } else {
            [0u8, 0, 0, 0]
        })
}

/// Turns a generated grid into a level: the exit goes on a walkable tile of a
/// side picked at random, but not on the side facing the previous level's exit
/// (`previous_exit_edge`, when there is a previous level); the player spawns on
/// a walkable tile of that facing side, or anywhere walkable on the first level;
/// then a wall is wrapped around the grid and the exit is painted into the wall
/// beside its tile.
pub fn run_overlap(tile_grid: TileGrid, previous_exit_edge: Option<Edge>) -> (made: OverlapLevel)
    requires
        tile_grid.wf(),
        1 <= tile_grid.width <= usize::MAX - 2,
        1 <= tile_grid.height <= usize::MAX - 2,
        exists|e: Edge, c: (int, int)|
            Some(e) != (match previous_exit_edge {
                Some(p) => Some(opposite_of(p)),
                None => None,
            }) && #[trigger] tile_grid.walkable_on(e, c),
        previous_exit_edge matches Some(p) ==> exists|c: (int, int)| #[trigger] tile_grid.walkable_on(opposite_of(p), c),
    ensures
        made.level.wf(),
        made.level.width == tile_grid.width + 2,
        made.level.height == tile_grid.height + 2,
        exists|e: Edge, exit: (int, int)|
            {
                &&& #[trigger] tile_grid.walkable_on(e, exit)
                &&& previous_exit_edge matches Some(p) ==> e != opposite_of(p)
                &&& walled_with_exit(made.level, tile_grid, e, exit)
                &&& in_wall(edge_target(Some(e), exit.0, exit.1), tile_grid.width + 2, tile_grid.height + 2)
                &&& side_by_side(edge_target(Some(e), exit.0, exit.1), (exit.0 + 1, exit.1 + 1))
            },
        made.spawn_layer.wf(),
        made.spawn_layer.width == tile_grid.width + 2,
        made.spawn_layer.height == tile_grid.height + 2,
        exists|spawn: (int, int)|
            {
                &&& match previous_exit_edge {
                    Some(p) => tile_grid.walkable_on(opposite_of(p), spawn),
                    None => tile_grid.walkable_at(spawn),
                }
                &&& #[trigger] marks_spawn(made.spawn_layer, spawn)
            },
{
    let width = tile_grid.width;
    let height = tile_grid.height;
    let forbidden_exit_edge = match previous_exit_edge {
        Some(e) => Some(opposite_edge(&e)),
        None => None,
    };
    let (exit_pos, exit_edge) = tile_grid.load_exit_tile(forbidden_exit_edge);
    let spawn_pos = match forbidden_exit_edge {
        Some(prev_edge) => tile_grid.load_spawn(prev_edge),
        None => {
            proof {
                let (e, c) = choose|e: Edge, c: (int, int)| Some(e) != forbidden_exit_edge && #[trigger] tile_grid.walkable_on(e, c);
                assert(tile_grid.walkable_at(c));
            }
            tile_grid.random_walkable_tile()
        },
    };
    let ghost sp = (spawn_pos.0 as int, spawn_pos.1 as int);
    assert(match previous_exit_edge {
        Some(p) => tile_grid.walkable_on(opposite_of(p), sp),
        None => tile_grid.walkable_at(sp),
    });
    let mut level = tile_grid.wrap_edge(WALL_RGBA);
    let ghost e = exit_edge->0;
    let ghost ex = (exit_pos.0 as int, exit_pos.1 as int);
    assert(on_edge(e, ex, width as int, height as int));
    level.place_tile_on_edge(exit_edge, exit_pos, EXIT_RGBA);
    let mut spawn_layer = TileGrid::new(width + 2, height + 2);
    spawn_layer.place_spawn_tile(spawn_pos, SPAWN_RGBA);
    assert(walled_with_exit(level, tile_grid, e, ex));
    proof {
        lemma_exit_in_wall_beside(e, ex.0, ex.1, width as int, height as int);
    }
    assert(marks_spawn(spawn_layer, sp));
    let made = OverlapLevel { level, spawn_layer };
    assert(match previous_exit_edge {
        Some(p) => tile_grid.walkable_on(opposite_of(p), sp),
        None => tile_grid.walkable_at(sp),
    } && marks_spawn(made.spawn_layer, sp));
    made
}

/// The patterns as sequences of rows.
pub open spec fn patterns_view(v: Seq<Pattern>) -> Seq<Seq<Seq<Rgba>>> {
    v.map_values(|p: Pattern| pattern_view(p))
}

/// `s` with every element after its first occurrence left out.
pub open spec fn dedup<T>(s: Seq<T>) -> Seq<T>
    decreases s.len(),
{
    if s.len() == 0 {
        s
    } else {
        let d = dedup(s.drop_last());
        if d.contains(s.last()) {
            d
        } else {
            d.push(s.last())
        }
    }
}

/// Whether two patterns have the same rows.
pub fn same_pattern(a: &Pattern, b: &Pattern) -> (same: bool)
    ensures
        same == (pattern_view(*a) == pattern_view(*b)),
{
    if a.len() != b.len() {
        assert(pattern_view(*a).len() != pattern_view(*b).len());
        return false;
    }
    let mut y: usize = 0;
    while y < a.len()
        invariant
            a@.len() == b@.len(),
            y <= a@.len(),
            forall|j: int| 0 <= j < y ==> (#[trigger] a@[j])@ == b@[j]@,
        decreases a@.len() - y,
    {
        if a[y].len() != b[y].len() {
            assert(pattern_view(*a)[y as int] != pattern_view(*b)[y as int]);
            return false;
        }
        let mut x: usize = 0;
        while x < a[y].len()
            invariant
                a@.len() == b@.len(),
                y < a@.len(),
                a@[y as int]@.len() == b@[y as int]@.len(),
                x <= a@[y as int]@.len(),
                forall|i: int| 0 <= i < x ==> a@[y as int]@[i] == b@[y as int]@[i],
            decreases a@[y as int]@.len() - x,
        {
            if !same_colour(&a[y][x], &b[y][x]) {
                assert(pattern_view(*a)[y as int][x as int] != pattern_view(*b)[y as int][x as int]);
                return false;
            }
            x = x + 1;
        }
        assert(a@[y as int]@ =~= b@[y as int]@);
        y = y + 1;
    }
    assert(pattern_view(*a) =~= pattern_view(*b));
    true
}

/// Whether some pattern of `v` has the same rows as `p`.
pub fn contains_pattern(v: &Vec<Pattern>, p: &Pattern) -> (found: bool)
    ensures
        found == patterns_view(v@).contains(pattern_view(*p)),
{
    let mut i: usize = 0;
    while i < v.len()
        invariant
            i <= v@.len(),
            forall|j: int| 0 <= j < i ==> pattern_view(#[trigger] v@[j]) != pattern_view(*p),
        decreases v@.len() - i,
    {
        if same_pattern(&v[i], p) {
            assert(patterns_view(v@)[i as int] == pattern_view(*p));
            return true;
        }
        i = i + 1;
    }
    assert forall|j: int| 0 <= j < patterns_view(v@).len() implies patterns_view(v@)[j] != pattern_view(*p) by {
        assert(patterns_view(v@)[j] == pattern_view(v@[j]));
    }
    false
}

/// The square of `2 * n` by `2 * n` pixels of `img` whose top-left corner is
/// sample tile `(tx, ty)`.
pub open spec fn window(img: TileGrid, tx: int, ty: int, n: int) -> Seq<Seq<Rgba>> {
    Seq::new(
        (n * 2) as nat,
        |dy: int| Seq::new((n * 2) as nat, |dx: int| img.at(tx * 2 + dx, ty * 2 + dy)),
    )
}

/// How many windows fit across a row: the sample tiles of a row, less `n - 1`.
pub open spec fn windows_across(img: TileGrid, n: int) -> int {
    (img.width / 2) as int - n + 1
}

/// How many windows fit down a column.
pub open spec fn windows_down(img: TileGrid, n: int) -> int {
    (img.height / 2) as int - n + 1
}

/// The first `k` windows of `img`, in reading order.
pub open spec fn windows(img: TileGrid, n: int, k: int) -> Seq<Seq<Seq<Rgba>>>
    decreases k,
{
    if k <= 0 {
        Seq::empty()
    } else {
        let across = windows_across(img, n);
        windows(img, n, k - 1).push(window(img, (k - 1) % across, (k - 1) / across, n))
    }
}

/// The distinct patterns of an image: every square of `2 * n` by `2 * n` pixels
/// that starts on a sample tile (two by two pixels), in reading order, each
/// kept at its first occurrence only.
#[verifier::loop_isolation(false)]
pub fn extract_patterns(img: &TileGrid, n: usize) -> (patterns: Vec<Pattern>)
    requires
        img.wf(),
        n <= img.width / 2,
        n <= img.height / 2,
    ensures
        patterns_view(patterns@) == dedup(
            windows(*img, n as int, windows_across(*img, n as int) * windows_down(*img, n as int)),
        ),
{
    let tile_px = SAMPLE_TILE_SIZE;
    let tiles_x = img.width / tile_px;
    let tiles_y = img.height / tile_px;
    let ghost across = windows_across(*img, n as int);
    let mut patterns: Vec<Pattern> = Vec::new();
    let mut ty: usize = 0;
    while ty <= tiles_y - n
        invariant
            img.wf(),
            tiles_x == img.width / 2,
            tiles_y == img.height / 2,
            n <= tiles_x,
            n <= tiles_y,
            across == tiles_x - n + 1,
            ty <= tiles_y - n + 1,
            patterns_view(patterns@) == dedup(windows(*img, n as int, ty * across)),
        decreases tiles_y - n + 1 - ty,
    {
        let mut tx: usize = 0;
        while tx <= tiles_x - n
            invariant
                img.wf(),
                tiles_x == img.width / 2,
                tiles_y == img.height / 2,
                n <= tiles_x,
                n <= tiles_y,
                across == tiles_x - n + 1,
                ty <= tiles_y - n,
                tx <= tiles_x - n + 1,
                patterns_view(patterns@) == dedup(windows(*img, n as int, ty * across + tx)),
            decreases tiles_x - n + 1 - tx,
        {
            let mut pattern: Pattern = Vec::new();
            let mut dy: usize = 0;
            while dy < n * tile_px
                invariant
                    img.wf(),
                    tiles_x == img.width / 2,
                    tiles_y == img.height / 2,
                    ty <= tiles_y - n,
                    tx <= tiles_x - n,
                    tile_px == 2,
                    dy <= n * 2,
                    pattern@.len() == dy,
                    forall|j: int| 0 <= j < dy ==> (#[trigger] pattern@[j])@ == window(*img, tx as int, ty as int, n as int)[j],
                decreases n * 2 - dy,
            {
                let mut row: Vec<Rgba> = Vec::new();
                let mut dx: usize = 0;
                while dx < n * tile_px
                    invariant
                        img.wf(),
                        tiles_x == img.width / 2,
                        tiles_y == img.height / 2,
                        ty <= tiles_y - n,
                        tx <= tiles_x - n,
                        tile_px == 2,
                        dy < n * 2,
                        dx <= n * 2,
                        row@ =~= window(*img, tx as int, ty as int, n as int)[dy as int].subrange(0, dx as int),
                    decreases n * 2 - dx,
                {
                    let px = (tx * tile_px) + dx;
                    let py = (ty * tile_px) + dy;
                    row.push(img.tiles[py][px]);
                    dx = dx + 1;
                }
                pattern.push(row);
                dy = dy + 1;
            }
            assert(pattern_view(pattern) =~= window(*img, tx as int, ty as int, n as int));
            let ghost k = ty * across + tx;
            proof {
                vstd::arithmetic::div_mod::lemma_fundamental_div_mod_converse(k, across, ty as int, tx as int);
                assert(windows(*img, n as int, k + 1).drop_last() == windows(*img, n as int, k));
                assert(windows(*img, n as int, k + 1).last() == pattern_view(pattern));
            }
            if !contains_pattern(&patterns, &pattern) {
                patterns.push(pattern);
                assert(patterns_view(patterns@) =~= dedup(windows(*img, n as int, k)).push(pattern_view(pattern)));
            }
            tx = tx + 1;
        }
        assert(ty * across + across == (ty + 1) * across) by (nonlinear_arith);
        ty = ty + 1;
    }
    assert((tiles_y - n + 1) * across == across * windows_down(*img, n as int)) by (nonlinear_arith)
        requires windows_down(*img, n as int) == tiles_y - n + 1;
    patterns
}

/// Sample tile `(tx, ty)` of size `tile_size` fits in `img`.
pub open spec fn sample_in(img: TileGrid, tile_size: int, tx: int, ty: int) -> bool {
    0 <= tx < img.width as int / tile_size && 0 <= ty < img.height as int / tile_size
}

/// Sample tile `(tx, ty)` is the first, in reading order, whose top-left pixel
/// has the exit colour.
pub open spec fn first_exit_sample(img: TileGrid, tile_size: int, tx: int, ty: int) -> bool {
    &&& sample_in(img, tile_size, tx, ty)
    &&& img.at(tx * tile_size, ty * tile_size) == EXIT_RGBA
    &&& forall|i: int, j: int|
        sample_in(img, tile_size, i, j) && (j < ty || (j == ty && i < tx)) ==> #[trigger] img.at(
            i * tile_size,
            j * tile_size,
        ) != EXIT_RGBA
}

/// The side of the grid on which sample tile `(tx, ty)` lies, checked in the order
/// left, right, top, bottom; `None` inside.
pub open spec fn side_of(tx: int, ty: int, tiles_x: int, tiles_y: int) -> Option<Edge> {
    if tx == 0 {
        Some(Edge::Left)
    } else if tx == tiles_x - 1 {
        Some(Edge::Right)
    } else if ty == 0 {
        Some(Edge::Top)
    } else if ty == tiles_y - 1 {
        Some(Edge::Bottom)
    } else {
        None
    }
}

/// The side of the level on which its exit lies: the image is cut into sample
/// tiles of `tile_size` pixels, and the first tile, in reading order, whose
/// top-left pixel has the exit colour decides. `None` when no tile has it, or
/// when that tile is not on a side.
pub fn exit_tile_edge(img: &TileGrid, tile_size: u32) -> (edge: Option<Edge>)
    requires
        img.wf(),
        tile_size > 0,
        img.width <= u32::MAX,
        img.height <= u32::MAX,
    ensures
        match (exists|tx: int, ty: int| #[trigger] first_exit_sample(*img, tile_size as int, tx, ty)) {
            true => exists|tx: int, ty: int|
                #[trigger] first_exit_sample(*img, tile_size as int, tx, ty) && edge == side_of(
                    tx,
                    ty,
                    img.width as int / tile_size as int,
                    img.height as int / tile_size as int,
                ),
            false => edge is None,
        },
{
    let width = img.width as u32;
    let height = img.height as u32;
    let tiles_x = width / tile_size;
    let tiles_y = height / tile_size;
    let mut ty: u32 = 0;
    while ty < tiles_y
        invariant
            img.wf(),
            tile_size > 0,
            width == img.width,
            height == img.height,
            tiles_x == img.width as int / tile_size as int,
            tiles_y == img.height as int / tile_size as int,
            ty <= tiles_y,
            forall|i: int, j: int|
                sample_in(*img, tile_size as int, i, j) && j < ty ==> #[trigger] img.at(
                    i * tile_size,
                    j * tile_size,
                ) != EXIT_RGBA,
        decreases tiles_y - ty,
    {
        let mut tx: u32 = 0;
        while tx < tiles_x
            invariant
                img.wf(),
                tile_size > 0,
                width == img.width,
                height == img.height,
                tiles_x == img.width as int / tile_size as int,
                tiles_y == img.height as int / tile_size as int,
                ty < tiles_y,
                tx <= tiles_x,
                forall|i: int, j: int|
                    sample_in(*img, tile_size as int, i, j) && (j < ty || (j == ty && i < tx)) ==> #[trigger] img.at(
                        i * tile_size,
                        j * tile_size,
                    ) != EXIT_RGBA,
            decreases tiles_x - tx,
        {
            assert(tx * tile_size < width && ty * tile_size < height) by (nonlinear_arith)
                requires
                    tx < tiles_x,
                    ty < tiles_y,
                    tiles_x == width / tile_size,
                    tiles_y == height / tile_size,
                    tile_size > 0,
            ;
            let px = tx * tile_size;
            let py = ty * tile_size;
            if same_colour(&img.tiles[py as usize][px as usize], &EXIT_RGBA) {
                assert(first_exit_sample(*img, tile_size as int, tx as int, ty as int));
                let edge = if tx == 0 {
                    Some(Edge::Left)
                } else if tx == tiles_x - 1 {
                    Some(Edge::Right)
                } else if ty == 0 {
                    Some(Edge::Top)
                } else if ty == tiles_y - 1 {
                    Some(Edge::Bottom)
                } else {
                    None
                };
                proof {
                    assert forall|a: int, b: int| #[trigger] first_exit_sample(*img, tile_size as int, a, b)
                        implies a == tx && b == ty by {
                        if b < ty || (b == ty && a < tx) {
                        } else if b > ty || (b == ty && a > tx) {
                            assert(img.at(tx * tile_size, ty * tile_size) != EXIT_RGBA);
                        }
                    }
                }
                return edge;
            }
            tx = tx + 1;
        }
        ty = ty + 1;
    }
    assert forall|a: int, b: int| !#[trigger] first_exit_sample(*img, tile_size as int, a, b) by {}
    None
}

/// What `image::load_from_memory` of the `image` crate, followed by
/// `to_rgba8`, makes of the file contents `bytes`: the width and height of the
/// picture and its RGBA buffer; `None` where the bytes are no picture it reads.
pub uninterp spec fn decoded_rgba(bytes: Seq<u8>) -> Option<(u32, u32, Seq<u8>)>;

/// Calls `image::load_from_memory` on `bytes`, turns the picture into RGBA
/// with `to_rgba8`, and hands out its width, height and buffer (`into_raw`).
/// The result is named `decoded_rgba` of the bytes, as it depends on them
/// alone; beyond that the buffer holds at least four bytes per pixel (an
/// `ImageBuffer` is only made over a buffer that large), pixel `(x, y)` at
/// `4 * (y * width + x)`. Which pixels a file gives is not stated.
#[verifier::external_body]
fn decode_rgba(bytes: &[u8]) -> (decoded: Option<(u32, u32, Vec<u8>)>)
    ensures
        decoded_rgba(bytes@) == match decoded {
            Some((w, h, raw)) => Some((w, h, raw@)),
            None => None,
        },
        decoded matches Some((w, h, raw)) ==> 4 * w * h <= raw@.len(),
{
    match image::load_from_memory(bytes) {
        Ok(img) => {
            let rgba = img.to_rgba8();
            let (w, h) = rgba.dimensions();
            Some((w, h, rgba.into_raw()))
        },
        Err(_) => None,
    }
}

/// The colour of pixel `(x, y)` in an RGBA buffer `w` pixels wide.
pub open spec fn pixel_of(raw: Seq<u8>, w: int, x: int, y: int) -> Rgba {
    let i = 4 * (y * w + x);
    [raw[i], raw[i + 1], raw[i + 2], raw[i + 3]]
}

/// The picture in the file contents `bytes`, one colour per pixel; `None`
/// where `image` cannot read it.
pub fn image_from_bytes(bytes: &[u8]) -> (grid: Option<TileGrid>)
    ensures
        grid is None <==> decoded_rgba(bytes@) is None,
        grid matches Some(g) ==> decoded_rgba(bytes@) matches Some((w, h, raw)) && {
            &&& g.wf()
            &&& g.width == w
            &&& g.height == h
            &&& forall|x: int, y: int| g.in_grid(x, y) ==> #[trigger] g.at(x, y) == pixel_of(raw, w as int, x, y)
        },
{
    let (w, h, raw) = match decode_rgba(bytes) {
        Some(d) => d,
        None => {
            return None;
        },
    };
    let width = w as usize;
    let height = h as usize;
    let total = raw.len();
    let mut tiles: Vec<Vec<Rgba>> = Vec::new();
    let mut y: usize = 0;
    while y < height
        invariant
            width == w,
            height == h,
            4 * w * h <= raw@.len(),
            raw@.len() == total,
            y <= height,
            tiles@.len() == y,
            forall|j: int| 0 <= j < y ==> (#[trigger] tiles@[j])@.len() == width,
            forall|i: int, j: int|
                0 <= j < y && 0 <= i < width ==> #[trigger] tiles@[j]@[i] == pixel_of(raw@, w as int, i, j),
        decreases height - y,
    {
        let mut row: Vec<Rgba> = Vec::new();
        let mut x: usize = 0;
        while x < width
            invariant
                width == w,
                height == h,
                4 * w * h <= raw@.len(),
                raw@.len() == total,
                y < height,
                x <= width,
                row@.len() == x,
                forall|i: int| 0 <= i < x ==> #[trigger] row@[i] == pixel_of(raw@, w as int, i, y as int),
            decreases width - x,
        {
            assert(4 * (y * width + x) + 3 < 4 * w * h) by (nonlinear_arith)
                requires
                    x < width,
                    y < height,
                    width == w,
                    height == h,
            ;
            assert(0 <= y * width) by (nonlinear_arith)
                requires
                    0 <= y,
                    0 <= width,
            ;
            let k = 4 * (y * width + x);
            row.push([raw[k], raw[k + 1], raw[k + 2], raw[k + 3]]);
            x = x + 1;
        }
        let ghost before = tiles@;
        tiles.push(row);
        proof {
            assert forall|i: int, j: int|
                0 <= j < y + 1 && 0 <= i < width implies #[trigger] tiles@[j]@[i] == pixel_of(raw@, w as int, i, j) by {
                if j < y {
                    assert(tiles@[j] == before[j]);
                }
            }
        }
        y = y + 1;
    }
    Some(TileGrid { width, height, tiles })
}

/// `(x, y)` is the top-left pixel of a sample tile of size `tile_size` that
/// fits in `img`.
pub open spec fn sampled(img: TileGrid, tile_size: int, x: int, y: int) -> bool {
    x % tile_size == 0 && y % tile_size == 0 && sample_in(img, tile_size, x / tile_size, y / tile_size)
}

/// The grid a level image stands for: as large as the image, holding the
/// top-left pixel of every sample tile of `tile_size` pixels at that pixel's
/// place, and transparent black elsewhere.
pub fn tile_grid_from_image(img: &TileGrid, tile_size: u32) -> (grid: TileGrid)
    requires
        img.wf(),
        tile_size > 0,
    ensures
        grid.wf(),
        grid.width == img.width,
        grid.height == img.height,
        forall|x: int, y: int|
            grid.in_grid(x, y) ==> #[trigger] grid.at(x, y) == (if sampled(*img, tile_size as int, x, y) {
                img.at(x, y)
            } else {
                [0u8, 0, 0, 0]
            }),
{
    let ts = tile_size as usize;
    let tiles_x = img.width / ts;
    let tiles_y = img.height / ts;
    let mut tiles: Vec<Vec<Rgba>> = Vec::new();
    let mut y: usize = 0;
    while y < img.height
        invariant
            img.wf(),
            ts == tile_size,
            ts > 0,
            tiles_x == img.width as int / ts as int,
            tiles_y == img.height as int / ts as int,
            y <= img.height,
            tiles@.len() == y,
            forall|j: int| 0 <= j < y ==> (#[trigger] tiles@[j])@.len() == img.width,
            forall|i: int, j: int|
                0 <= j < y && 0 <= i < img.width ==> #[trigger] tiles@[j]@[i] == (if sampled(*img, tile_size as int, i, j) {
                    img.at(i, j)
                } else {
                    [0u8, 0, 0, 0]
                }),
        decreases img.height - y,
    {
        let mut row: Vec<Rgba> = Vec::new();
        let mut x: usize = 0;
        while x < img.width
            invariant
                img.wf(),
                ts == tile_size,
                ts > 0,
                tiles_x == img.width as int / ts as int,
                tiles_y == img.height as int / ts as int,
                y < img.height,
                x <= img.width,
                row@.len() == x,
                forall|i: int|
                    0 <= i < x ==> #[trigger] row@[i] == (if sampled(*img, tile_size as int, i, y as int) {
                        img.at(i, y as int)
                    } else {
                        [0u8, 0, 0, 0]
                    }),
            decreases img.width - x,
        {
            if x % ts == 0 && y % ts == 0 && x / ts < tiles_x && y / ts < tiles_y {
                row.push(img.tiles[y][x]);
            } else {
                row.push([0u8, 0, 0, 0]);
            }
            x = x + 1;
        }
        tiles.push(row);
        y = y + 1;
    }
    TileGrid { width: img.width, height: img.height, tiles }
}

/// `p` has the same rows as some pattern of `patterns`.
pub open spec fn one_of(p: Pattern, patterns: Seq<Pattern>) -> bool {
    exists|k: int| 0 <= k < patterns.len() && pattern_view(p) == pattern_view(patterns[k])
}

/// A side of a tile grid.
#[derive(Clone, Copy, Debug, PartialEq, Eq, Structural)]
pub enum Edge {
    Top,
    Bottom,
    Left,
    Right,
}

/// The side across the grid from `edge`.
pub fn opposite_edge(edge: &Edge) -> (opposite: Edge)
    ensures
        opposite == opposite_of(*edge),
{
    match edge {
        Edge::Top => Edge::Bottom,
        Edge::Bottom => Edge::Top,
        Edge::Left => Edge::Right,
        Edge::Right => Edge::Left,
    }
}

pub open spec fn opposite_of(edge: Edge) -> Edge {
    match edge {
        Edge::Top => Edge::Bottom,
        Edge::Bottom => Edge::Top,
        Edge::Left => Edge::Right,
        Edge::Right => Edge::Left,
    }
}

/// `c` lies on side `e` of a `width` by `height` grid.
pub open spec fn on_edge(e: Edge, c: (int, int), width: int, height: int) -> bool {
    0 <= c.0 < width && 0 <= c.1 < height && match e {
        Edge::Top => c.1 == 0,
        Edge::Bottom => c.1 == height - 1,
        Edge::Left => c.0 == 0,
        Edge::Right => c.0 == width - 1,
    }
}

/// Where `place_tile_on_edge` writes: one step outside the side `edge` from `(x, y)`,
/// or `(x, y)` moved past the wrapped border when no side is given.
pub open spec fn edge_target(edge: Option<Edge>, x: int, y: int) -> (int, int) {
    match edge {
        Some(Edge::Bottom) => (x + 1, y + 2),
        Some(Edge::Top) => (x + 1, 0),
        Some(Edge::Left) => (0, y + 1),
        Some(Edge::Right) => (x + 2, y + 1),
        None => (x + 1, y + 1),
    }
}

/// The tile one step from `c` in direction `k`: up, right, down, left.
pub open spec fn step(c: (int, int), k: int) -> (int, int) {
    if k == 0 {
        (c.0, c.1 - 1)
    } else if k == 1 {
        (c.0 + 1, c.1)
    } else if k == 2 {
        (c.0, c.1 + 1)
    } else {
        (c.0 - 1, c.1)
    }
}

/// `c` is waiting in the queue `q`.
pub open spec fn in_queue(q: Seq<(usize, usize)>, c: (int, int)) -> bool {
    exists|i: int| 0 <= i < q.len() && q[i].0 == c.0 && q[i].1 == c.1
}

/// The text of what `Path::parent` of std gives for the path written `path`.
pub uninterp spec fn parent_of(path: Seq<char>) -> Option<Seq<char>>;

/// The text of what `Path::file_name` of std gives for the path written `path`.
pub uninterp spec fn file_name_of(path: Seq<char>) -> Option<Seq<char>>;

/// The text of an optional text.
pub open spec fn text_view(t: Option<String>) -> Option<Seq<char>> {
    match t {
        Some(s) => Some(s@),
        None => None,
    }
}

/// Calls `Path::parent` of std on the path written `path`, and turns the
/// result back into text: the result is named `parent_of` of the path, as it
/// depends on the path alone. Beyond that it is a leading part of `path`
/// (`Path::parent` gives a slice of it), which part is not stated.
#[verifier::external_body]
fn path_parent(path: &str) -> (parent: Option<String>)
    ensures
        text_view(parent) == parent_of(path@),
        parent matches Some(p) ==> p@.len() <= path@.len() && p@ == path@.take(p@.len() as int),
{
    Path::new(path).parent().map(|p| p.to_string_lossy().into_owned())
}

/// Calls `Path::file_name` of std on the path written `path`, and turns the
/// result back into text: the result is named `file_name_of` of the path, as
/// it depends on the path alone. Beyond that it is a stretch of `path`
/// (`Path::file_name` gives a slice of it), which stretch is not stated.
#[verifier::external_body]
fn path_file_name(path: &str) -> (name: Option<String>)
    ensures
        text_view(name) == file_name_of(path@),
        name matches Some(f) ==> exists|i: int|
            0 <= i && i + f@.len() <= path@.len() && #[trigger] path@.subrange(i, i + f@.len()) == f@,
{
    Path::new(path).file_name().map(|f| f.to_string_lossy().into_owned())
}

/// The index in the name of a level's folder, "level" followed by the index.
pub open spec fn folder_index(name: Seq<char>) -> Option<i32> {
    if name.len() >= 5 && name.take(5) == seq!['l', 'e', 'v', 'e', 'l'] {
        parsed_i32(name.skip(5))
    } else {
        None
    }
}

/// The index in the name of a level's folder, "level" followed by the index.
pub fn level_index_of_folder(name: &str) -> (index: Option<i32>)
    ensures
        index == folder_index(name@),
{
    let n = name.unicode_len();
    if n < 5 {
        return None;
    }
    let prefix = name.get_char(0) == 'l' && name.get_char(1) == 'e' && name.get_char(2) == 'v' && name.get_char(3)
        == 'e' && name.get_char(4) == 'l';
    if !prefix {
        assert(name@.take(5)[0] == name@[0]);
        assert(name@.take(5)[1] == name@[1]);
        assert(name@.take(5)[2] == name@[2]);
        assert(name@.take(5)[3] == name@[3]);
        assert(name@.take(5)[4] == name@[4]);
        assert(name@.take(5) != seq!['l', 'e', 'v', 'e', 'l']);
        return None;
    }
    assert(name@.take(5) =~= seq!['l', 'e', 'v', 'e', 'l']);
    let rest = name.substring_char(5, n);
    assert(rest@ =~= name@.skip(5));
    parse_i32(rest)
}

/// The index of the level whose picture is at `level_path`: its folder must be
/// named "level" followed by the index. `None` when the path has no folder,
/// the folder no name, or the name no index.
pub fn extract_level_index(level_path: &str) -> (index: Option<i32>)
    ensures
        index == match parent_of(level_path@) {
            Some(folder) => match file_name_of(folder) {
                Some(name) => folder_index(name),
                None => None,
            },
            None => None,
        },
        index matches Some(v) ==> exists|name: Seq<char>, i: int|
            #![trigger folder_index(name), level_path@.subrange(i, i + name.len())]
            folder_index(name) == Some(v) && 0 <= i && i + name.len() <= level_path@.len() && level_path@.subrange(
                i,
                i + name.len(),
            ) == name,
{
    let folder = match path_parent(level_path) {
        Some(f) => f,
        None => {
            return None;
        },
    };
    let folder_name = match path_file_name(folder.as_str()) {
        Some(f) => f,
        None => {
            return None;
        },
    };
    let index = level_index_of_folder(folder_name.as_str());
    proof {
        let i = choose|i: int|
            0 <= i && i + folder_name@.len() <= folder@.len() && #[trigger] folder@.subrange(i, i + folder_name@.len())
                == folder_name@;
        assert(level_path@.subrange(i, i + folder_name@.len()) =~= folder_name@);
        assert(folder_index(folder_name@) == index);
    }
    index
}

/// The folder of the level whose picture is at `level_path`: the path's parent.
pub fn get_folder_path_from_level(level_path: &str) -> (folder: Option<String>)
    ensures
        text_view(folder) == parent_of(level_path@),
        folder matches Some(f) ==> f@.len() <= level_path@.len() && f@ == level_path@.take(f@.len() as int),
{
    path_parent(level_path)
}

/// `c` is a tile of the border of a `w` by `h` grid.
pub open spec fn in_wall(c: (int, int), w: int, h: int) -> bool {
    &&& 0 <= c.0 < w
    &&& 0 <= c.1 < h
    &&& (c.0 == 0 || c.0 == w - 1 || c.1 == 0 || c.1 == h - 1)
}

/// The exit chosen on side `e` at tile `(x, y)` of a `w` by `h` grid is
/// painted into the wall that wraps the grid, on the tile next to the chosen
/// one (which lies at `(x + 1, y + 1)` once wrapped), across side `e`.
pub proof fn lemma_exit_in_wall_beside(e: Edge, x: int, y: int, w: int, h: int)
    requires
        on_edge(e, (x, y), w, h),
    ensures
        in_wall(edge_target(Some(e), x, y), w + 2, h + 2),
        side_by_side(edge_target(Some(e), x, y), (x + 1, y + 1)),
        !(1 <= edge_target(Some(e), x, y).0 <= w && 1 <= edge_target(Some(e), x, y).1 <= h),
{
}

/// The opposite side of the opposite side is the side itself.
pub proof fn lemma_opposite_involution(e: Edge)
    ensures
        opposite_of(opposite_of(e)) == e,
        opposite_of(e) != e,
{
}

} // verus!
