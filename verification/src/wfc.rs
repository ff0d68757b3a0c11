//! Wave function collapse on a grid of tiles: each cell starts with every tile
//! as an option, and cells are collapsed one by one to a single tile, the
//! options of the others narrowed after each step to tiles that fit their
//! neighbours.
pub mod overlap;

use vstd::prelude::*;
use vstd::string::*;
use crate::environment::level::{plain_tile, Layer, Level, Tile};
use crate::environment::texture_data::TextureData;
use crate::environment::tile_type::{Rgb, TileType};

verus! {

/// The side of a drawn cell in pixels.
pub const TILE_SIZE: usize = 50;
/// Cells across the grid: the screen's width in cells.
pub const GRID_WIDTH: usize = 16;
/// Cells down the grid: the screen's height in cells.
pub const GRID_HEIGHT: usize = 12;

/// A tile the grid can be made of, with the kinds it may touch on each side:
/// up, right, down, left.
#[derive(Debug, Clone)]
pub struct WfcTile {
    pub tile_type: TileType,
    pub edges: [Vec<TileType>; 4],
}

/// A cell of the grid: the tiles (indices into the tile set) it may still
/// become, and whether it was fixed to one of them.
#[derive(Debug, Clone)]
pub struct Cell {
    pub options: Vec<usize>,
    pub collapsed: bool,
}

/// A grid being generated, with the tile set it is made of.
pub struct WFCState {
    pub grid: Vec<Vec<Cell>>,
    pub tileset: Vec<WfcTile>,
}

/// The kinds tile `t` may touch on side `d`.
pub open spec fn edge(t: WfcTile, d: int) -> Seq<TileType> {
    t.edges@[d]@
}

/// The side facing side `d`.
pub open spec fn opposite_dir(d: int) -> int {
    (d + 2) % 4
}

/// Tile `b` may lie on side `d` of tile `a`: some kind is allowed both on
/// `a`'s side `d` and on `b`'s opposite side.
pub open spec fn compatible(a: WfcTile, b: WfcTile, d: int) -> bool {
    exists|i: int, j: int|
        0 <= i < edge(a, d).len() && 0 <= j < edge(b, opposite_dir(d)).len() && #[trigger] edge(a, d)[i].key()
            == #[trigger] edge(b, opposite_dir(d))[j].key()
}

/// Whether tile `tile_b` may lie on side `direction` of tile `tile_a`.
pub fn is_compatible(tile_a: &WfcTile, tile_b: &WfcTile, direction: usize) -> (ok: bool)
    requires
        direction < 4,
    ensures
        ok == compatible(*tile_a, *tile_b, direction as int),
{
    let opposite = (direction + 2) % 4;
    let ea = &tile_a.edges[direction];
    let eb = &tile_b.edges[opposite];
    let ghost d = direction as int;
    assert(ea@ == edge(*tile_a, d));
    assert(eb@ == edge(*tile_b, opposite_dir(d)));
    let mut i: usize = 0;
    while i < ea.len()
        invariant
            i <= ea@.len(),
            d == direction as int,
            ea@ == edge(*tile_a, d),
            eb@ == edge(*tile_b, opposite_dir(d)),
            forall|ii: int, jj: int|
                0 <= ii < i && 0 <= jj < eb@.len() ==> #[trigger] ea@[ii].key() != #[trigger] eb@[jj].key(),
        decreases ea@.len() - i,
    {
        let mut j: usize = 0;
        while j < eb.len()
            invariant
                i < ea@.len(),
                j <= eb@.len(),
                d == direction as int,
                ea@ == edge(*tile_a, d),
                eb@ == edge(*tile_b, opposite_dir(d)),
                forall|ii: int, jj: int|
                    0 <= ii < i && 0 <= jj < eb@.len() ==> #[trigger] ea@[ii].key() != #[trigger] eb@[jj].key(),
                forall|jj: int| 0 <= jj < j ==> ea@[i as int].key() != #[trigger] eb@[jj].key(),
            decreases eb@.len() - j,
        {
            if ea[i].same_as(&eb[j]) {
                assert(edge(*tile_a, d)[i as int].key() == edge(*tile_b, opposite_dir(d))[j as int].key());
                return true;
            }
            j = j + 1;
        }
        i = i + 1;
    }
    false
}

impl Cell {
    /// A cell that may still become any of the first `tile_count` tiles.
    pub fn new(tile_count: usize) -> (cell: Cell)
        ensures
            !cell.collapsed,
            cell.options@.len() == tile_count,
            forall|i: int| 0 <= i < tile_count ==> #[trigger] cell.options@[i] == i,
    {
        let mut options: Vec<usize> = Vec::new();
        let mut i: usize = 0;
        while i < tile_count
            invariant
                i <= tile_count,
                options@.len() == i,
                forall|k: int| 0 <= k < i ==> #[trigger] options@[k] == k,
            decreases tile_count - i,
        {
            options.push(i);
            i = i + 1;
        }
        Cell { options, collapsed: false }
    }

    /// The number of tiles the cell may still become.
    pub fn entropy(&self) -> (e: usize)
        ensures
            e == self.options@.len(),
    {
        self.options.len()
    }

    /// Fixes the cell to one of its options, picked at random; a cell already
    /// fixed, or with no options, stays as it is.
    pub fn collapse(&mut self)
        ensures
            old(self).collapsed || old(self).options@.len() == 0 ==> *final(self) == *old(self),
            !old(self).collapsed && old(self).options@.len() > 0 ==> {
                &&& final(self).collapsed
                &&& final(self).options@.len() == 1
                &&& old(self).options@.contains(final(self).options@[0])
            },
    {
        if self.collapsed || self.options.len() == 0 {
            return;
        }
        let choice = match crate::random::pick(&self.options) {
            Some(c) => *c,
            None => {
                return;
            },
        };
        self.options = vec![choice];
        self.collapsed = true;
    }
}

/// The cell at column `x` of row `y`.
pub open spec fn cell_at(g: Seq<Vec<Cell>>, x: int, y: int) -> Cell {
    g[y]@[x]
}

/// `(x, y)` lies in the grid.
pub open spec fn in_grid(x: int, y: int) -> bool {
    0 <= x < GRID_WIDTH && 0 <= y < GRID_HEIGHT
}

/// The cell beside `(x, y)` on side `d`: up, right, down, left.
pub open spec fn neighbour(x: int, y: int, d: int) -> (int, int) {
    if d == 0 {
        (x, y - 1)
    } else if d == 1 {
        (x + 1, y)
    } else if d == 2 {
        (x, y + 1)
    } else {
        (x - 1, y)
    }
}

/// The grid has `GRID_HEIGHT` rows of `GRID_WIDTH` cells.
pub open spec fn shaped(g: Seq<Vec<Cell>>) -> bool {
    &&& g.len() == GRID_HEIGHT
    &&& forall|y: int| 0 <= y < GRID_HEIGHT ==> (#[trigger] g[y])@.len() == GRID_WIDTH
}

/// Every option of every cell is a tile of a set of `n` tiles.
pub open spec fn options_valid(g: Seq<Vec<Cell>>, n: int) -> bool {
    forall|x: int, y: int, i: int|
        in_grid(x, y) && 0 <= i < cell_at(g, x, y).options@.len() ==> #[trigger] cell_at(g, x, y).options@[i] < n
}

/// Option `o` of cell `(x, y)` fits some option of its neighbour on side `d`,
/// if it has one there.
pub open spec fn supported_dir(g: Seq<Vec<Cell>>, tiles: Seq<WfcTile>, x: int, y: int, o: usize, d: int) -> bool {
    let (nx, ny) = neighbour(x, y, d);
    in_grid(nx, ny) ==> exists|k: int|
        0 <= k < cell_at(g, nx, ny).options@.len() && compatible(
            tiles[o as int],
            tiles[#[trigger] cell_at(g, nx, ny).options@[k] as int],
            d,
        )
}

/// Option `o` of cell `(x, y)` fits some option of each of its neighbours.
pub open spec fn supported(g: Seq<Vec<Cell>>, tiles: Seq<WfcTile>, x: int, y: int, o: usize) -> bool {
    &&& supported_dir(g, tiles, x, y, o, 0)
    &&& supported_dir(g, tiles, x, y, o, 1)
    &&& supported_dir(g, tiles, x, y, o, 2)
    &&& supported_dir(g, tiles, x, y, o, 3)
}

/// Every option of every cell not yet fixed fits its neighbours.
pub open spec fn arc_consistent(g: Seq<Vec<Cell>>, tiles: Seq<WfcTile>) -> bool {
    forall|x: int, y: int, i: int|
        in_grid(x, y) && !cell_at(g, x, y).collapsed && 0 <= i < cell_at(g, x, y).options@.len()
            ==> #[trigger] supported(g, tiles, x, y, cell_at(g, x, y).options@[i])
}

/// `after` is `before` with some of its entries left out, the others kept in
/// their order.
pub open spec fn kept_in_order(before: Seq<usize>, after: Seq<usize>) -> bool {
    after == before.filter(|o: usize| after.contains(o))
}

/// The options of cell `(x, y)` that fit some option of each of its
/// neighbours in `g`.
pub open spec fn fits_here(g: Seq<Vec<Cell>>, tiles: Seq<WfcTile>, x: int, y: int) -> spec_fn(usize) -> bool {
    |o: usize| supported(g, tiles, x, y, o)
}

/// `g2` narrows `g` to a grid in which no cell is out of options and every
/// option of a cell not fixed fits some option of each neighbour.
pub open spec fn settles(g: Seq<Vec<Cell>>, g2: Seq<Vec<Cell>>, tiles: Seq<WfcTile>) -> bool {
    &&& narrowed(g, g2)
    &&& no_empty_cell(g2)
    &&& arc_consistent(g2, tiles)
}

/// Every option of every cell of `g2` is still an option of that cell in `g`.
pub open spec fn covers(g: Seq<Vec<Cell>>, g2: Seq<Vec<Cell>>) -> bool {
    forall|x: int, y: int, o: usize|
        in_grid(x, y) && #[trigger] cell_at(g2, x, y).options@.contains(o) ==> cell_at(g, x, y).options@.contains(o)
}

/// Filtering twice is filtering by both conditions.
proof fn lemma_filter_twice<A>(s: Seq<A>, p: spec_fn(A) -> bool, q: spec_fn(A) -> bool)
    ensures
        s.filter(p).filter(q) == s.filter(|a: A| p(a) && q(a)),
    decreases s.len(),
{
    reveal(Seq::filter);
    if s.len() > 0 {
        let d = s.drop_last();
        let l = s.last();
        lemma_filter_twice(d, p, q);
        if p(l) {
            d.filter(p).lemma_filter_push(l, q);
        }
    }
}

/// Conditions that agree on every entry filter alike.
proof fn lemma_filter_same<A>(s: Seq<A>, p1: spec_fn(A) -> bool, p2: spec_fn(A) -> bool)
    requires
        forall|i: int| 0 <= i < s.len() ==> p1(#[trigger] s[i]) == p2(s[i]),
    ensures
        s.filter(p1) == s.filter(p2),
    decreases s.len(),
{
    reveal(Seq::filter);
    if s.len() > 0 {
        let d = s.drop_last();
        assert forall|i: int| 0 <= i < d.len() implies p1(#[trigger] d[i]) == p2(d[i]) by {
            assert(d[i] == s[i]);
        }
        lemma_filter_same(d, p1, p2);
        assert(p1(s[s.len() - 1]) == p2(s[s.len() - 1]));
    }
}

/// A condition that holds of every entry keeps them all.
proof fn lemma_filter_all<A>(s: Seq<A>, p: spec_fn(A) -> bool)
    requires
        forall|i: int| 0 <= i < s.len() ==> p(#[trigger] s[i]),
    ensures
        s.filter(p) == s,
    decreases s.len(),
{
    reveal(Seq::filter);
    if s.len() > 0 {
        let d = s.drop_last();
        assert forall|i: int| 0 <= i < d.len() implies p(#[trigger] d[i]) by {
            assert(d[i] == s[i]);
        }
        lemma_filter_all(d, p);
        assert(p(s[s.len() - 1]));
        assert(d.push(s.last()) =~= s);
    }
}

/// An entry of `s` is in `s.filter(p)` exactly when `p` holds of it.
proof fn lemma_filter_has<A>(s: Seq<A>, p: spec_fn(A) -> bool, i: int)
    requires
        0 <= i < s.len(),
    ensures
        s.filter(p).contains(s[i]) == p(s[i]),
{
    if p(s[i]) {
        s.lemma_filter_contains(p, i);
    }
    if s.filter(p).contains(s[i]) {
        let j = choose|j: int| 0 <= j < s.filter(p).len() && s.filter(p)[j] == s[i];
        s.lemma_filter_pred(p, j);
    }
}

/// Every sequence keeps all of itself.
proof fn lemma_kept_all(s: Seq<usize>)
    ensures
        kept_in_order(s, s),
{
    let p = |o: usize| s.contains(o);
    assert forall|i: int| 0 <= i < s.len() implies p(#[trigger] s[i]) by {
        assert(s.contains(s[i]));
    }
    lemma_filter_all(s, p);
}

/// Keeping some of what was kept keeps some of the first, in order.
proof fn lemma_kept_step(s: Seq<usize>, a: Seq<usize>, q: spec_fn(usize) -> bool)
    requires
        kept_in_order(s, a),
    ensures
        kept_in_order(s, a.filter(q)),
{
    let pa = |o: usize| a.contains(o);
    let b = a.filter(q);
    let both = |o: usize| pa(o) && q(o);
    lemma_filter_twice(s, pa, q);
    assert(b == s.filter(both));
    let pb = |o: usize| b.contains(o);
    assert forall|i: int| 0 <= i < s.len() implies both(#[trigger] s[i]) == pb(s[i]) by {
        lemma_filter_has(s, both, i);
    }
    lemma_filter_same(s, both, pb);
}

/// An option that fits its neighbours in `g2` still fits them in a grid that
/// has every option of `g2`, on side `d`.
proof fn lemma_dir_survives(g: Seq<Vec<Cell>>, g2: Seq<Vec<Cell>>, tiles: Seq<WfcTile>, x: int, y: int, o: usize, d: int)
    requires
        covers(g, g2),
        supported_dir(g2, tiles, x, y, o, d),
    ensures
        supported_dir(g, tiles, x, y, o, d),
{
    let (nx, ny) = neighbour(x, y, d);
    if in_grid(nx, ny) {
        let k = choose|k: int|
            0 <= k < cell_at(g2, nx, ny).options@.len() && compatible(
                tiles[o as int],
                tiles[#[trigger] cell_at(g2, nx, ny).options@[k] as int],
                d,
            );
        let p = cell_at(g2, nx, ny).options@[k];
        assert(cell_at(g2, nx, ny).options@.contains(p));
        assert(cell_at(g, nx, ny).options@.contains(p));
        let k2 = choose|k2: int| 0 <= k2 < cell_at(g, nx, ny).options@.len() && cell_at(g, nx, ny).options@[k2] == p;
        assert(compatible(tiles[o as int], tiles[cell_at(g, nx, ny).options@[k2] as int], d));
    }
}

/// An option of an open cell of a settled grid `g2` fits its neighbours in any
/// grid that has every option of `g2`.
proof fn lemma_support_survives(g: Seq<Vec<Cell>>, g2: Seq<Vec<Cell>>, tiles: Seq<WfcTile>, x: int, y: int, o: usize)
    requires
        covers(g, g2),
        arc_consistent(g2, tiles),
        in_grid(x, y),
        !cell_at(g2, x, y).collapsed,
        cell_at(g2, x, y).options@.contains(o),
    ensures
        supported(g, tiles, x, y, o),
{
    let i = choose|i: int| 0 <= i < cell_at(g2, x, y).options@.len() && cell_at(g2, x, y).options@[i] == o;
    assert(supported(g2, tiles, x, y, cell_at(g2, x, y).options@[i]));
    lemma_dir_survives(g, g2, tiles, x, y, o, 0);
    lemma_dir_survives(g, g2, tiles, x, y, o, 1);
    lemma_dir_survives(g, g2, tiles, x, y, o, 2);
    lemma_dir_survives(g, g2, tiles, x, y, o, 3);
}

/// `after` came from `before` by dropping options of cells not fixed: the
/// fixed cells are as they were, and each other cell kept some of its options.
pub open spec fn narrowed(before: Seq<Vec<Cell>>, after: Seq<Vec<Cell>>) -> bool {
    &&& shaped(after)
    &&& forall|x: int, y: int|
        in_grid(x, y) ==> (#[trigger] cell_at(after, x, y)).collapsed == cell_at(before, x, y).collapsed
    &&& forall|x: int, y: int|
        in_grid(x, y) && cell_at(before, x, y).collapsed ==> (#[trigger] cell_at(after, x, y)).options@
            == cell_at(before, x, y).options@
    &&& forall|x: int, y: int, o: usize|
        in_grid(x, y) && #[trigger] cell_at(after, x, y).options@.contains(o) ==> cell_at(before, x, y).options@.contains(o)
}

/// The sum of `f` over the cells of a row.
pub open spec fn row_sum(r: Seq<Cell>, f: spec_fn(Cell) -> nat) -> nat
    decreases r.len(),
{
    if r.len() == 0 {
        0
    } else {
        row_sum(r.drop_last(), f) + f(r.last())
    }
}

/// The sum of `f` over the cells of a grid.
pub open spec fn grid_sum(g: Seq<Vec<Cell>>, f: spec_fn(Cell) -> nat) -> nat
    decreases g.len(),
{
    if g.len() == 0 {
        0
    } else {
        grid_sum(g.drop_last(), f) + row_sum(g.last()@, f)
    }
}

/// The number of options of a cell.
pub open spec fn option_count() -> spec_fn(Cell) -> nat {
    |c: Cell| c.options@.len()
}

/// The number of options left in the grid.
pub open spec fn total_options(g: Seq<Vec<Cell>>) -> nat {
    grid_sum(g, option_count())
}

/// `nc` is what one round of narrowing makes of cell `c` at `(x, y)` of grid
/// `g`: a fixed cell stays; another keeps only options that fit its
/// neighbours, at least one, and all of them when all fit.
pub open spec fn pruned(c: Cell, nc: Cell, g: Seq<Vec<Cell>>, tiles: Seq<WfcTile>, x: int, y: int) -> bool {
    &&& nc.collapsed == c.collapsed
    &&& c.collapsed ==> nc.options@ == c.options@
    &&& !c.collapsed ==> {
        &&& 0 < nc.options@.len() <= c.options@.len()
        &&& forall|k: int|
            0 <= k < nc.options@.len() ==> c.options@.contains(#[trigger] nc.options@[k]) && supported(
                g,
                tiles,
                x,
                y,
                nc.options@[k],
            )
        &&& nc.options@.len() == c.options@.len() ==> forall|k: int|
            0 <= k < c.options@.len() ==> #[trigger] supported(g, tiles, x, y, c.options@[k])
        &&& nc.options@ == c.options@.filter(fits_here(g, tiles, x, y))
        &&& forall|k: int|
            0 <= k < c.options@.len() && #[trigger] supported(g, tiles, x, y, c.options@[k]) ==> nc.options@.contains(
                c.options@[k],
            )
    }
}

/// Rows compared cell by cell: `f` nowhere larger in `r1` gives a sum no larger,
/// and strictly smaller where it is somewhere smaller.
proof fn lemma_row_sum_le(r1: Seq<Cell>, r2: Seq<Cell>, f: spec_fn(Cell) -> nat)
    requires
        r1.len() == r2.len(),
        forall|i: int| 0 <= i < r1.len() ==> f(#[trigger] r1[i]) <= f(r2[i]),
    ensures
        row_sum(r1, f) <= row_sum(r2, f),
        (exists|i: int| 0 <= i < r1.len() && f(#[trigger] r1[i]) < f(r2[i])) ==> row_sum(r1, f) < row_sum(r2, f),
    decreases r1.len(),
{
    if r1.len() > 0 {
        let n = r1.len() - 1;
        assert forall|i: int| 0 <= i < r1.drop_last().len() implies f(#[trigger] r1.drop_last()[i]) <= f(r2.drop_last()[i]) by {
            assert(r1.drop_last()[i] == r1[i]);
            assert(r2.drop_last()[i] == r2[i]);
        }
        lemma_row_sum_le(r1.drop_last(), r2.drop_last(), f);
        assert(f(r1[n]) <= f(r2[n]));
        if exists|i: int| 0 <= i < r1.len() && f(#[trigger] r1[i]) < f(r2[i]) {
            let i = choose|i: int| 0 <= i < r1.len() && f(#[trigger] r1[i]) < f(r2[i]);
            if i < n {
                assert(r1.drop_last()[i] == r1[i]);
                assert(r2.drop_last()[i] == r2[i]);
            }
        }
    }
}

/// Grids compared cell by cell, as rows are in `lemma_row_sum_le`.
proof fn lemma_grid_sum_le(g1: Seq<Vec<Cell>>, g2: Seq<Vec<Cell>>, f: spec_fn(Cell) -> nat)
    requires
        g1.len() == g2.len(),
        forall|y: int| 0 <= y < g1.len() ==> (#[trigger] g1[y])@.len() == g2[y]@.len(),
        forall|x: int, y: int|
            0 <= y < g1.len() && 0 <= x < g1[y]@.len() ==> f(#[trigger] cell_at(g1, x, y)) <= f(cell_at(g2, x, y)),
    ensures
        grid_sum(g1, f) <= grid_sum(g2, f),
        (exists|x: int, y: int|
            0 <= y < g1.len() && 0 <= x < g1[y]@.len() && f(#[trigger] cell_at(g1, x, y)) < f(cell_at(g2, x, y)))
            ==> grid_sum(g1, f) < grid_sum(g2, f),
    decreases g1.len(),
{
    if g1.len() > 0 {
        let n = g1.len() - 1;
        let d1 = g1.drop_last();
        let d2 = g2.drop_last();
        assert forall|y: int| 0 <= y < d1.len() implies (#[trigger] d1[y])@.len() == d2[y]@.len() by {
            assert(d1[y] == g1[y]);
            assert(d2[y] == g2[y]);
        }
        assert forall|x: int, y: int|
            0 <= y < d1.len() && 0 <= x < d1[y]@.len() implies f(#[trigger] cell_at(d1, x, y)) <= f(cell_at(d2, x, y)) by {
            assert(d1[y] == g1[y]);
            assert(d2[y] == g2[y]);
            assert(cell_at(d1, x, y) == cell_at(g1, x, y));
            assert(cell_at(d2, x, y) == cell_at(g2, x, y));
            assert(f(cell_at(g1, x, y)) <= f(cell_at(g2, x, y)));
        }
        lemma_grid_sum_le(d1, d2, f);
        assert forall|i: int| 0 <= i < g1[n]@.len() implies f(#[trigger] g1[n]@[i]) <= f(g2[n]@[i]) by {
            assert(cell_at(g1, i, n) == g1[n]@[i]);
        }
        lemma_row_sum_le(g1[n]@, g2[n]@, f);
        if exists|x: int, y: int|
            0 <= y < g1.len() && 0 <= x < g1[y]@.len() && f(#[trigger] cell_at(g1, x, y)) < f(cell_at(g2, x, y)) {
            let (x, y) = choose|x: int, y: int|
                0 <= y < g1.len() && 0 <= x < g1[y]@.len() && f(#[trigger] cell_at(g1, x, y)) < f(cell_at(g2, x, y));
            if y < n {
                assert(d1[y] == g1[y]);
                assert(d2[y] == g2[y]);
                assert(f(cell_at(d1, x, y)) < f(cell_at(d2, x, y)));
            } else {
                assert(f(g1[n]@[x]) < f(g2[n]@[x]));
            }
        }
    }
}

/// Whether option `o` fits some option of cell `nb`, which lies on side `d`.
fn fits_some(tiles: &Vec<WfcTile>, o: usize, nb: &Cell, d: usize) -> (ok: bool)
    requires
        o < tiles@.len(),
        d < 4,
        forall|i: int| 0 <= i < nb.options@.len() ==> #[trigger] nb.options@[i] < tiles@.len(),
    ensures
        ok == exists|k: int|
            0 <= k < nb.options@.len() && compatible(tiles@[o as int], tiles@[#[trigger] nb.options@[k] as int], d as int),
{
    let mut k: usize = 0;
    while k < nb.options.len()
        invariant
            k <= nb.options@.len(),
            o < tiles@.len(),
            d < 4,
            forall|i: int| 0 <= i < nb.options@.len() ==> #[trigger] nb.options@[i] < tiles@.len(),
            forall|i: int|
                0 <= i < k ==> !compatible(tiles@[o as int], tiles@[#[trigger] nb.options@[i] as int], d as int),
        decreases nb.options@.len() - k,
    {
        if is_compatible(&tiles[o], &tiles[nb.options[k]], d) {
            return true;
        }
        k = k + 1;
    }
    false
}

/// What `fits_some` answers for the neighbour on side `d` is whether option
/// `o` of `(x, y)` is supported on that side.
proof fn lemma_fits_dir(g: Seq<Vec<Cell>>, tiles: Seq<WfcTile>, x: int, y: int, o: usize, d: int, nb: Cell, ok: bool)
    requires
        0 <= d < 4,
        in_grid(neighbour(x, y, d).0, neighbour(x, y, d).1),
        nb == cell_at(g, neighbour(x, y, d).0, neighbour(x, y, d).1),
        ok == exists|k: int|
            0 <= k < nb.options@.len() && compatible(tiles[o as int], tiles[#[trigger] nb.options@[k] as int], d),
    ensures
        ok == supported_dir(g, tiles, x, y, o, d),
{
    let (nx, ny) = neighbour(x, y, d);
    if ok {
        let k = choose|k: int| 0 <= k < nb.options@.len() && compatible(tiles[o as int], tiles[#[trigger] nb.options@[k] as int], d);
        assert(cell_at(g, nx, ny).options@[k] == nb.options@[k]);
    }
    if supported_dir(g, tiles, x, y, o, d) {
        let k = choose|k: int|
            0 <= k < cell_at(g, nx, ny).options@.len() && compatible(
                tiles[o as int],
                tiles[#[trigger] cell_at(g, nx, ny).options@[k] as int],
                d,
            );
        assert(cell_at(g, nx, ny).options@[k] == nb.options@[k]);
    }
}

/// The options of a cell of a grid with valid options are tiles of the set.
proof fn lemma_cell_valid(g: Seq<Vec<Cell>>, n: int, x: int, y: int)
    requires
        options_valid(g, n),
        in_grid(x, y),
    ensures
        forall|i: int| 0 <= i < g[y]@[x].options@.len() ==> #[trigger] g[y]@[x].options@[i] < n,
{
    assert forall|i: int| 0 <= i < g[y]@[x].options@.len() implies #[trigger] g[y]@[x].options@[i] < n by {
        assert(cell_at(g, x, y).options@[i] < n);
    }
}

/// Whether option `o` of cell `(x, y)` fits some option of each neighbour.
fn option_supported(grid: &Vec<Vec<Cell>>, tiles: &Vec<WfcTile>, x: usize, y: usize, o: usize) -> (ok: bool)
    requires
        shaped(grid@),
        options_valid(grid@, tiles@.len() as int),
        in_grid(x as int, y as int),
        o < tiles@.len(),
    ensures
        ok == supported(grid@, tiles@, x as int, y as int, o),
{
    let up = if y > 0 {
        proof {
            lemma_cell_valid(grid@, tiles@.len() as int, x as int, y - 1);
        }
        let nb = &grid[y - 1][x];
        let r = fits_some(tiles, o, nb, 0);
        proof {
            lemma_fits_dir(grid@, tiles@, x as int, y as int, o, 0, *nb, r);
        }
        r
    } else {
        true
    };
    let right = if x + 1 < GRID_WIDTH {
        proof {
            lemma_cell_valid(grid@, tiles@.len() as int, x + 1, y as int);
        }
        let nb = &grid[y][x + 1];
        let r = fits_some(tiles, o, nb, 1);
        proof {
            lemma_fits_dir(grid@, tiles@, x as int, y as int, o, 1, *nb, r);
        }
        r
    } else {
        true
    };
    let down = if y + 1 < GRID_HEIGHT {
        proof {
            lemma_cell_valid(grid@, tiles@.len() as int, x as int, y + 1);
        }
        let nb = &grid[y + 1][x];
        let r = fits_some(tiles, o, nb, 2);
        proof {
            lemma_fits_dir(grid@, tiles@, x as int, y as int, o, 2, *nb, r);
        }
        r
    } else {
        true
    };
    let left = if x > 0 {
        proof {
            lemma_cell_valid(grid@, tiles@.len() as int, x - 1, y as int);
        }
        let nb = &grid[y][x - 1];
        let r = fits_some(tiles, o, nb, 3);
        proof {
            lemma_fits_dir(grid@, tiles@, x as int, y as int, o, 3, *nb, r);
        }
        r
    } else {
        true
    };
    up && right && down && left
}

/// Narrows the options of the cells not yet fixed, round by round, to those
/// that fit some option of each neighbour, until a round changes nothing.
/// Returns `false`, at once, when a cell is left with no option.
#[verifier::loop_isolation(false)]
pub fn propagate(grid: &mut Vec<Vec<Cell>>, tileset: &Vec<WfcTile>) -> (ok: bool)
    requires
        shaped(old(grid)@),
        options_valid(old(grid)@, tileset@.len() as int),
    ensures
        narrowed(old(grid)@, final(grid)@),
        options_valid(final(grid)@, tileset@.len() as int),
        ok ==> arc_consistent(final(grid)@, tileset@),
        ok ==> forall|x: int, y: int|
            in_grid(x, y) && !cell_at(final(grid)@, x, y).collapsed ==> #[trigger] cell_at(final(grid)@, x, y).options@.len() > 0,
        !ok ==> exists|x: int, y: int|
            {
                &&& in_grid(x, y)
                &&& !(#[trigger] cell_at(final(grid)@, x, y)).collapsed
                &&& forall|i: int|
                    0 <= i < cell_at(final(grid)@, x, y).options@.len() ==> !supported(
                        final(grid)@,
                        tileset@,
                        x,
                        y,
                        #[trigger] cell_at(final(grid)@, x, y).options@[i],
                    )
            },
        no_empty_cell(old(grid)@) && arc_consistent(old(grid)@, tileset@) ==> ok && final(grid)@ == old(grid)@,
        forall|x: int, y: int|
            in_grid(x, y) ==> kept_in_order(cell_at(old(grid)@, x, y).options@, (#[trigger] cell_at(final(grid)@, x, y)).options@),
        forall|g2: Seq<Vec<Cell>>| #[trigger] settles(old(grid)@, g2, tileset@) ==> covers(final(grid)@, g2),
        !ok ==> forall|g2: Seq<Vec<Cell>>| !#[trigger] settles(old(grid)@, g2, tileset@),
{
    let ghost start = grid@;
    let ghost n = tileset@.len() as int;
    let ghost calm = no_empty_cell(start) && arc_consistent(start, tileset@);
    proof {
        assert forall|x: int, y: int| in_grid(x, y) implies kept_in_order(
            cell_at(start, x, y).options@,
            (#[trigger] cell_at(grid@, x, y)).options@,
        ) by {
            lemma_kept_all(cell_at(start, x, y).options@);
        }
        assert forall|g2: Seq<Vec<Cell>>| #[trigger] settles(start, g2, tileset@) implies covers(grid@, g2) by {
            assert forall|x: int, y: int, o: usize|
                in_grid(x, y) && #[trigger] cell_at(g2, x, y).options@.contains(o) implies cell_at(grid@, x, y).options@.contains(o) by {}
        }
    }
    let mut changed = true;
    while changed
        invariant
            shaped(grid@),
            options_valid(grid@, n),
            narrowed(start, grid@),
            !changed ==> arc_consistent(grid@, tileset@),
            !changed ==> forall|x: int, y: int|
                in_grid(x, y) && !cell_at(grid@, x, y).collapsed ==> #[trigger] cell_at(grid@, x, y).options@.len() > 0,
            calm ==> grid@ == start,
            forall|x: int, y: int|
                in_grid(x, y) ==> kept_in_order(cell_at(start, x, y).options@, (#[trigger] cell_at(grid@, x, y)).options@),
            forall|g2: Seq<Vec<Cell>>| #[trigger] settles(start, g2, tileset@) ==> covers(grid@, g2),
        decreases total_options(grid@) + if changed {
            1int
        } else {
            0int
        },
    {
        changed = false;
        let ghost g = grid@;
        let mut next: Vec<Vec<Cell>> = Vec::new();
        let mut any_dropped = false;
        let mut y: usize = 0;
        while y < GRID_HEIGHT
            invariant
                grid@ == g,
                !changed,
                calm ==> g == start,
                calm ==> !any_dropped,
                narrowed(start, g),
                forall|g2: Seq<Vec<Cell>>| #[trigger] settles(start, g2, tileset@) ==> covers(g, g2),
                y <= GRID_HEIGHT,
                next@.len() == y,
                forall|yy: int| 0 <= yy < y ==> (#[trigger] next@[yy])@.len() == GRID_WIDTH,
                forall|xx: int, yy: int|
                    0 <= xx < GRID_WIDTH && 0 <= yy < y ==> pruned(
                        cell_at(g, xx, yy),
                        #[trigger] cell_at(next@, xx, yy),
                        g,
                        tileset@,
                        xx,
                        yy,
                    ),
                any_dropped <==> exists|xx: int, yy: int|
                    0 <= xx < GRID_WIDTH && 0 <= yy < y && (#[trigger] cell_at(next@, xx, yy)).options@.len()
                        < cell_at(g, xx, yy).options@.len(),
            decreases GRID_HEIGHT - y,
        {
            let ghost dropped_before = any_dropped;
            let mut row: Vec<Cell> = Vec::new();
            let mut x: usize = 0;
            while x < GRID_WIDTH
                invariant
                    grid@ == g,
                    !changed,
                    calm ==> g == start,
                    calm ==> !any_dropped,
                    narrowed(start, g),
                    forall|g2: Seq<Vec<Cell>>| #[trigger] settles(start, g2, tileset@) ==> covers(g, g2),
                    y < GRID_HEIGHT,
                    x <= GRID_WIDTH,
                    row@.len() == x,
                    forall|xx: int|
                        0 <= xx < x ==> pruned(cell_at(g, xx, y as int), #[trigger] row@[xx], g, tileset@, xx, y as int),
                    any_dropped <==> dropped_before || exists|xx: int|
                        0 <= xx < x && (#[trigger] row@[xx]).options@.len() < cell_at(g, xx, y as int).options@.len(),
                decreases GRID_WIDTH - x,
            {
                let cell = &grid[y][x];
                assert(*cell == cell_at(g, x as int, y as int));
                let ghost row_before = row@;
                let new_cell = if cell.collapsed {
                    let kept = cell.options.clone();
                    assert(kept@ =~= cell.options@);
                    Cell { options: kept, collapsed: true }
                } else {
                    let mut new_options: Vec<usize> = Vec::new();
                    let mut i: usize = 0;
                    while i < cell.options.len()
                        invariant
                            grid@ == g,
                            *cell == cell_at(g, x as int, y as int),
                            i <= cell.options@.len(),
                            new_options@.len() <= i,
                            forall|k: int|
                                0 <= k < new_options@.len() ==> cell.options@.contains(#[trigger] new_options@[k])
                                    && supported(g, tileset@, x as int, y as int, new_options@[k]),
                            forall|k: int|
                                0 <= k < i && supported(g, tileset@, x as int, y as int, #[trigger] cell.options@[k])
                                    ==> new_options@.contains(cell.options@[k]),
                            new_options@.len() == i ==> forall|k: int|
                                0 <= k < i ==> #[trigger] supported(g, tileset@, x as int, y as int, cell.options@[k]),
                            (forall|k: int|
                                0 <= k < i ==> #[trigger] supported(g, tileset@, x as int, y as int, cell.options@[k]))
                                ==> new_options@.len() == i,
                            new_options@ == cell.options@.take(i as int).filter(fits_here(g, tileset@, x as int, y as int)),
                        decreases cell.options@.len() - i,
                    {
                        let o = cell.options[i];
                        assert(o < n);
                        let ghost before = new_options@;
                        proof {
                            assert(cell.options@.take(i + 1) =~= cell.options@.take(i as int).push(o));
                            cell.options@.take(i as int).lemma_filter_push(o, fits_here(g, tileset@, x as int, y as int));
                        }
                        if option_supported(grid, tileset, x, y, o) {
                            new_options.push(o);
                            proof {
                                assert(new_options@[before.len() as int] == o);
                                assert forall|k: int|
                                    0 <= k < i + 1 && supported(g, tileset@, x as int, y as int, #[trigger] cell.options@[k])
                                        implies new_options@.contains(cell.options@[k]) by {
                                    if k < i {
                                        let j = choose|j: int| 0 <= j < before.len() && before[j] == cell.options@[k];
                                        assert(new_options@[j] == before[j]);
                                    }
                                }
                            }
                        }
                        i = i + 1;
                    }
                    proof {
                        assert(cell.options@.take(cell.options@.len() as int) =~= cell.options@);
                        if calm {
                            assert forall|k: int| 0 <= k < cell.options@.len() implies #[trigger] supported(
                                g,
                                tileset@,
                                x as int,
                                y as int,
                                cell.options@[k],
                            ) by {
                                assert(in_grid(x as int, y as int));
                            }
                            assert(new_options@.len() == cell.options@.len());
                            assert(cell.options@.len() > 0);
                        }
                    }
                    if new_options.len() == 0 {
                        proof {
                            assert forall|k: int|
                                0 <= k < cell_at(grid@, x as int, y as int).options@.len() implies !supported(
                                    grid@,
                                    tileset@,
                                    x as int,
                                    y as int,
                                    #[trigger] cell_at(grid@, x as int, y as int).options@[k],
                                ) by {
                                if supported(g, tileset@, x as int, y as int, cell.options@[k]) {
                                    assert(new_options@.contains(cell.options@[k]));
                                }
                            }
                            assert forall|g2: Seq<Vec<Cell>>| !#[trigger] settles(start, g2, tileset@) by {
                                if settles(start, g2, tileset@) {
                                    let (xi, yi) = (x as int, y as int);
                                    assert(covers(g, g2));
                                    assert(in_grid(xi, yi));
                                    assert(cell_at(g2, xi, yi).collapsed == cell_at(start, xi, yi).collapsed);
                                    assert(cell_at(g, xi, yi).collapsed == cell_at(start, xi, yi).collapsed);
                                    assert(cell_at(g2, xi, yi).options@.len() > 0);
                                    let o = cell_at(g2, xi, yi).options@[0];
                                    assert(cell_at(g2, xi, yi).options@.contains(o));
                                    lemma_support_survives(g, g2, tileset@, xi, yi, o);
                                    assert(cell_at(g, xi, yi).options@.contains(o));
                                    let k = choose|k: int| 0 <= k < cell.options@.len() && cell.options@[k] == o;
                                    assert(supported(g, tileset@, xi, yi, cell.options@[k]));
                                    assert(new_options@.contains(cell.options@[k]));
                                }
                            }
                        }
                        return false;
                    }
                    if new_options.len() < cell.options.len() {
                        any_dropped = true;
                    }
                    Cell { options: new_options, collapsed: false }
                };
                assert(pruned(cell_at(g, x as int, y as int), new_cell, g, tileset@, x as int, y as int));
                row.push(new_cell);
                proof {
                    assert forall|xx: int| 0 <= xx < x implies #[trigger] row@[xx] == row_before[xx] by {}
                    assert(row@[x as int] == new_cell);
                    if any_dropped && !dropped_before {
                        if new_cell.options@.len() < cell_at(g, x as int, y as int).options@.len() {
                        } else {
                            let xx = choose|xx: int|
                                0 <= xx < x && (#[trigger] row_before[xx]).options@.len() < cell_at(g, xx, y as int).options@.len();
                            assert(row@[xx] == row_before[xx]);
                        }
                    }
                    if exists|xx: int|
                        0 <= xx < x + 1 && (#[trigger] row@[xx]).options@.len() < cell_at(g, xx, y as int).options@.len() {
                        let xx = choose|xx: int|
                            0 <= xx < x + 1 && (#[trigger] row@[xx]).options@.len() < cell_at(g, xx, y as int).options@.len();
                        if xx < x {
                            assert(row@[xx] == row_before[xx]);
                        }
                    }
                }
                x = x + 1;
            }
            let ghost next_before = next@;
            next.push(row);
            proof {
                assert forall|xx: int, yy: int| 0 <= xx < GRID_WIDTH && 0 <= yy < y implies #[trigger] cell_at(next@, xx, yy)
                    == cell_at(next_before, xx, yy) by {
                    assert(next@[yy] == next_before[yy]);
                }
                assert forall|xx: int, yy: int|
                    0 <= xx < GRID_WIDTH && 0 <= yy < y + 1 implies pruned(
                        cell_at(g, xx, yy),
                        #[trigger] cell_at(next@, xx, yy),
                        g,
                        tileset@,
                        xx,
                        yy,
                    ) by {
                    if yy == y {
                        assert(cell_at(next@, xx, yy) == row@[xx]);
                    } else {
                        assert(cell_at(next@, xx, yy) == cell_at(next_before, xx, yy));
                    }
                }
                if any_dropped {
                    if !dropped_before {
                        let xx = choose|xx: int|
                            0 <= xx < GRID_WIDTH && (#[trigger] row@[xx]).options@.len() < cell_at(g, xx, y as int).options@.len();
                        assert(cell_at(next@, xx, y as int) == row@[xx]);
                    } else {
                        let (xx, yy) = choose|xx: int, yy: int|
                            0 <= xx < GRID_WIDTH && 0 <= yy < y && (#[trigger] cell_at(next_before, xx, yy)).options@.len()
                                < cell_at(g, xx, yy).options@.len();
                        assert(cell_at(next@, xx, yy) == cell_at(next_before, xx, yy));
                    }
                }
                if exists|xx: int, yy: int|
                    0 <= xx < GRID_WIDTH && 0 <= yy < y + 1 && (#[trigger] cell_at(next@, xx, yy)).options@.len()
                        < cell_at(g, xx, yy).options@.len() {
                    let (xx, yy) = choose|xx: int, yy: int|
                        0 <= xx < GRID_WIDTH && 0 <= yy < y + 1 && (#[trigger] cell_at(next@, xx, yy)).options@.len()
                            < cell_at(g, xx, yy).options@.len();
                    if yy == y {
                        assert(cell_at(next@, xx, yy) == row@[xx]);
                    } else {
                        assert(cell_at(next@, xx, yy) == cell_at(next_before, xx, yy));
                    }
                }
            }
            y = y + 1;
        }
        proof {
            lemma_pruned_step(start, g, next@, tileset@);
        }
        if any_dropped {
            proof {
                assert forall|x: int, y: int|
                    0 <= y < next@.len() && 0 <= x < next@[y]@.len() implies option_count()(#[trigger] cell_at(next@, x, y))
                        <= option_count()(cell_at(g, x, y)) by {
                    assert(pruned(cell_at(g, x, y), cell_at(next@, x, y), g, tileset@, x, y));
                }
                let (xx, yy) = choose|xx: int, yy: int|
                    0 <= xx < GRID_WIDTH && 0 <= yy < GRID_HEIGHT && (#[trigger] cell_at(next@, xx, yy)).options@.len()
                        < cell_at(g, xx, yy).options@.len();
                assert(option_count()(cell_at(next@, xx, yy)) < option_count()(cell_at(g, xx, yy)));
                lemma_grid_sum_le(next@, g, option_count());
            }
            *grid = next;
            changed = true;
        } else {
            proof {
                assert forall|x: int, y: int, i: int|
                    in_grid(x, y) && !cell_at(g, x, y).collapsed && 0 <= i < cell_at(g, x, y).options@.len()
                        implies #[trigger] supported(g, tileset@, x, y, cell_at(g, x, y).options@[i]) by {
                    assert(pruned(cell_at(g, x, y), cell_at(next@, x, y), g, tileset@, x, y));
                }
                assert forall|x: int, y: int|
                    in_grid(x, y) && !cell_at(g, x, y).collapsed implies #[trigger] cell_at(g, x, y).options@.len() > 0 by {
                    assert(pruned(cell_at(g, x, y), cell_at(next@, x, y), g, tileset@, x, y));
                }
            }
        }
    }
    true
}

/// Every cell has at least one option left.
pub open spec fn no_empty_cell(g: Seq<Vec<Cell>>) -> bool {
    forall|x: int, y: int| in_grid(x, y) ==> (#[trigger] cell_at(g, x, y)).options@.len() > 0
}

/// A round of narrowing keeps the grid's shape, keeps options valid, and keeps
/// it narrowed from where it started.
proof fn lemma_pruned_step(start: Seq<Vec<Cell>>, g: Seq<Vec<Cell>>, next: Seq<Vec<Cell>>, tiles: Seq<WfcTile>)
    requires
        shaped(g),
        options_valid(g, tiles.len() as int),
        narrowed(start, g),
        next.len() == GRID_HEIGHT,
        forall|yy: int| 0 <= yy < GRID_HEIGHT ==> (#[trigger] next[yy])@.len() == GRID_WIDTH,
        forall|xx: int, yy: int|
            0 <= xx < GRID_WIDTH && 0 <= yy < GRID_HEIGHT ==> pruned(
                cell_at(g, xx, yy),
                #[trigger] cell_at(next, xx, yy),
                g,
                tiles,
                xx,
                yy,
            ),
        forall|x: int, y: int|
            in_grid(x, y) ==> kept_in_order(cell_at(start, x, y).options@, (#[trigger] cell_at(g, x, y)).options@),
        forall|g2: Seq<Vec<Cell>>| #[trigger] settles(start, g2, tiles) ==> covers(g, g2),
    ensures
        shaped(next),
        options_valid(next, tiles.len() as int),
        narrowed(start, next),
        forall|x: int, y: int|
            in_grid(x, y) ==> kept_in_order(cell_at(start, x, y).options@, (#[trigger] cell_at(next, x, y)).options@),
        forall|g2: Seq<Vec<Cell>>| #[trigger] settles(start, g2, tiles) ==> covers(next, g2),
{
    assert forall|x: int, y: int| in_grid(x, y) implies kept_in_order(
        cell_at(start, x, y).options@,
        (#[trigger] cell_at(next, x, y)).options@,
    ) by {
        assert(pruned(cell_at(g, x, y), cell_at(next, x, y), g, tiles, x, y));
        assert(kept_in_order(cell_at(start, x, y).options@, cell_at(g, x, y).options@));
        if !cell_at(g, x, y).collapsed {
            lemma_kept_step(cell_at(start, x, y).options@, cell_at(g, x, y).options@, fits_here(g, tiles, x, y));
        }
    }
    assert forall|g2: Seq<Vec<Cell>>| #[trigger] settles(start, g2, tiles) implies covers(next, g2) by {
        assert(covers(g, g2));
        assert forall|x: int, y: int, o: usize|
            in_grid(x, y) && #[trigger] cell_at(g2, x, y).options@.contains(o) implies cell_at(next, x, y).options@.contains(o) by {
            assert(pruned(cell_at(g, x, y), cell_at(next, x, y), g, tiles, x, y));
            assert(cell_at(g, x, y).options@.contains(o));
            if !cell_at(g, x, y).collapsed {
                assert(cell_at(g2, x, y).collapsed == cell_at(start, x, y).collapsed);
                lemma_support_survives(g, g2, tiles, x, y, o);
                let k = choose|k: int| 0 <= k < cell_at(g, x, y).options@.len() && cell_at(g, x, y).options@[k] == o;
                assert(supported(g, tiles, x, y, cell_at(g, x, y).options@[k]));
            }
        }
    }

    assert forall|x: int, y: int, i: int|
        in_grid(x, y) && 0 <= i < cell_at(next, x, y).options@.len() implies #[trigger] cell_at(next, x, y).options@[i]
            < tiles.len() by {
        assert(pruned(cell_at(g, x, y), cell_at(next, x, y), g, tiles, x, y));
        if !cell_at(g, x, y).collapsed {
            let o = cell_at(next, x, y).options@[i];
            assert(cell_at(g, x, y).options@.contains(o));
            let j = choose|j: int| 0 <= j < cell_at(g, x, y).options@.len() && cell_at(g, x, y).options@[j] == o;
            assert(cell_at(g, x, y).options@[j] < tiles.len());
        } else {
            assert(cell_at(g, x, y).options@[i] < tiles.len());
        }
    }
    assert forall|x: int, y: int, o: usize|
        in_grid(x, y) && #[trigger] cell_at(next, x, y).options@.contains(o) implies cell_at(start, x, y).options@.contains(o) by {
        assert(pruned(cell_at(g, x, y), cell_at(next, x, y), g, tiles, x, y));
        let j = choose|j: int| 0 <= j < cell_at(next, x, y).options@.len() && cell_at(next, x, y).options@[j] == o;
        if !cell_at(g, x, y).collapsed {
            assert(cell_at(g, x, y).options@.contains(cell_at(next, x, y).options@[j]));
        }
        assert(cell_at(g, x, y).options@.contains(o));
    }
    assert forall|x: int, y: int| in_grid(x, y) implies (#[trigger] cell_at(next, x, y)).collapsed == cell_at(start, x, y).collapsed by {
        assert(pruned(cell_at(g, x, y), cell_at(next, x, y), g, tiles, x, y));
    }
    assert forall|x: int, y: int|
        in_grid(x, y) && cell_at(start, x, y).collapsed implies (#[trigger] cell_at(next, x, y)).options@ == cell_at(start, x, y).options@ by {
        assert(pruned(cell_at(g, x, y), cell_at(next, x, y), g, tiles, x, y));
    }
}

/// `(x, y)` lies on the border of a `width` by `height` grid.
pub open spec fn on_border(c: (int, int), width: int, height: int) -> bool {
    &&& 0 <= c.0 < width
    &&& 0 <= c.1 < height
    &&& (c.0 == 0 || c.0 == width - 1 || c.1 == 0 || c.1 == height - 1)
}

/// The cells on the border of a `width` by `height` grid: for each column its
/// top and bottom cell, then for each row between its left and right cell.
pub fn edge_coordinates(width: usize, height: usize) -> (edges: Vec<(usize, usize)>)
    requires
        width >= 1,
        height >= 1,
    ensures
        edges@.len() == 2 * width + if height >= 2 {
            2 * (height - 2)
        } else {
            0
        },
        forall|x: int| 0 <= x < width ==> #[trigger] edges@[2 * x] == (x as usize, 0usize),
        forall|x: int| 0 <= x < width ==> #[trigger] edges@[2 * x + 1] == (x as usize, (height - 1) as usize),
        forall|y: int| 1 <= y < height - 1 ==> #[trigger] edges@[2 * width + 2 * (y - 1)] == (0usize, y as usize),
        forall|y: int|
            1 <= y < height - 1 ==> #[trigger] edges@[2 * width + 2 * (y - 1) + 1] == ((width - 1) as usize, y as usize),
        forall|c: (usize, usize)| #[trigger] edges@.contains(c) <==> on_border((c.0 as int, c.1 as int), width as int, height as int),
{
    let mut edges: Vec<(usize, usize)> = Vec::new();
    let mut x: usize = 0;
    while x < width
        invariant
            width >= 1,
            height >= 1,
            x <= width,
            edges@.len() == 2 * x,
            forall|i: int| 0 <= i < x ==> #[trigger] edges@[2 * i] == (i as usize, 0usize),
            forall|i: int| 0 <= i < x ==> #[trigger] edges@[2 * i + 1] == (i as usize, (height - 1) as usize),
        decreases width - x,
    {
        let ghost before = edges@;
        edges.push((x, 0));
        edges.push((x, height - 1));
        proof {
            assert forall|i: int| 0 <= i < x + 1 implies #[trigger] edges@[2 * i] == (i as usize, 0usize) by {
                if i < x {
                    assert(edges@[2 * i] == before[2 * i]);
                }
            }
            assert forall|i: int| 0 <= i < x + 1 implies #[trigger] edges@[2 * i + 1] == (i as usize, (height - 1) as usize) by {
                if i < x {
                    assert(edges@[2 * i + 1] == before[2 * i + 1]);
                }
            }
        }
        x = x + 1;
    }
    let mut y: usize = 1;
    while y + 1 < height
        invariant
            width >= 1,
            height >= 1,
            1 <= y,
            height >= 2 ==> y <= height - 1,
            height < 2 ==> y == 1,
            edges@.len() == 2 * width + 2 * (y - 1),
            forall|i: int| 0 <= i < width ==> #[trigger] edges@[2 * i] == (i as usize, 0usize),
            forall|i: int| 0 <= i < width ==> #[trigger] edges@[2 * i + 1] == (i as usize, (height - 1) as usize),
            forall|j: int| 1 <= j < y ==> #[trigger] edges@[2 * width + 2 * (j - 1)] == (0usize, j as usize),
            forall|j: int|
                1 <= j < y ==> #[trigger] edges@[2 * width + 2 * (j - 1) + 1] == ((width - 1) as usize, j as usize),
        decreases height - y,
    {
        let ghost before = edges@;
        edges.push((0, y));
        edges.push((width - 1, y));
        proof {
            assert forall|i: int| 0 <= i < width implies #[trigger] edges@[2 * i] == (i as usize, 0usize) by {
                assert(edges@[2 * i] == before[2 * i]);
            }
            assert forall|i: int| 0 <= i < width implies #[trigger] edges@[2 * i + 1] == (i as usize, (height - 1) as usize) by {
                assert(edges@[2 * i + 1] == before[2 * i + 1]);
            }
            assert forall|j: int| 1 <= j < y + 1 implies #[trigger] edges@[2 * width + 2 * (j - 1)] == (0usize, j as usize) by {
                if j < y {
                    assert(edges@[2 * width + 2 * (j - 1)] == before[2 * width + 2 * (j - 1)]);
                }
            }
            assert forall|j: int|
                1 <= j < y + 1 implies #[trigger] edges@[2 * width + 2 * (j - 1) + 1] == ((width - 1) as usize, j as usize) by {
                if j < y {
                    assert(edges@[2 * width + 2 * (j - 1) + 1] == before[2 * width + 2 * (j - 1) + 1]);
                }
            }
        }
        y = y + 1;
    }
    proof {
        assert forall|c: (usize, usize)| #[trigger] edges@.contains(c) <==> on_border(
            (c.0 as int, c.1 as int),
            width as int,
            height as int,
        ) by {
            if edges@.contains(c) {
                let k = choose|k: int| 0 <= k < edges@.len() && edges@[k] == c;
                if k < 2 * width {
                    let i = k / 2;
                    if k % 2 == 0 {
                        assert(edges@[2 * i] == (i as usize, 0usize));
                    } else {
                        assert(edges@[2 * i + 1] == (i as usize, (height - 1) as usize));
                    }
                } else {
                    let j = (k - 2 * width) / 2 + 1;
                    if (k - 2 * width) % 2 == 0 {
                        assert(edges@[2 * width + 2 * (j - 1)] == (0usize, j as usize));
                    } else {
                        assert(edges@[2 * width + 2 * (j - 1) + 1] == ((width - 1) as usize, j as usize));
                    }
                }
            }
            if on_border((c.0 as int, c.1 as int), width as int, height as int) {
                if c.1 == 0 {
                    assert(edges@[2 * c.0] == c);
                } else if c.1 == height - 1 {
                    assert(edges@[2 * c.0 + 1] == c);
                } else if c.0 == 0 {
                    assert(edges@[2 * width + 2 * (c.1 - 1)] == c);
                } else {
                    assert(edges@[2 * width + 2 * (c.1 - 1) + 1] == c);
                }
            }
        }
    }
    edges
}

/// Tile `t` is the exit.
pub open spec fn is_exit_tile(t: WfcTile) -> bool {
    t.tile_type is Exit
}

/// The ground an exit may replace.
pub open spec fn exit_ground(t: TileType) -> bool {
    t is Grass || t is Sand || t is Stone
}

/// The tiles before the first exit in the set: those the grid is made of.
pub fn valid_tile_count(tileset: &Vec<WfcTile>) -> (count: usize)
    ensures
        count <= tileset@.len(),
        forall|i: int| 0 <= i < count ==> !is_exit_tile(#[trigger] tileset@[i]),
        count < tileset@.len() ==> is_exit_tile(tileset@[count as int]),
{
    let mut i: usize = 0;
    while i < tileset.len()
        invariant
            i <= tileset@.len(),
            forall|k: int| 0 <= k < i ==> !is_exit_tile(#[trigger] tileset@[k]),
        decreases tileset@.len() - i,
    {
        if let TileType::Exit(_) = tileset[i].tile_type {
            return i;
        }
        i = i + 1;
    }
    i
}

/// Whether `tile_type` is ground an exit may replace.
fn is_exit_ground(tile_type: &TileType) -> (ground: bool)
    ensures
        ground == exit_ground(*tile_type),
{
    match tile_type {
        TileType::Grass | TileType::Sand | TileType::Stone => true,
        _ => false,
    }
}

/// `tiles[a]` and `tiles[b]` are swapped sides of the same fit.
proof fn lemma_compatible_symmetric(a: WfcTile, b: WfcTile, d: int)
    requires
        0 <= d < 4,
        compatible(a, b, d),
    ensures
        compatible(b, a, opposite_dir(d)),
{
    let (i, j) = choose|i: int, j: int|
        0 <= i < edge(a, d).len() && 0 <= j < edge(b, opposite_dir(d)).len() && #[trigger] edge(a, d)[i].key()
            == #[trigger] edge(b, opposite_dir(d))[j].key();
    assert(opposite_dir(opposite_dir(d)) == d);
    assert(edge(b, opposite_dir(d))[j].key() == edge(a, opposite_dir(opposite_dir(d)))[i].key());
}

/// Going to side `d` and back to the opposite side returns to the start.
proof fn lemma_neighbour_back(x: int, y: int, d: int)
    requires
        0 <= d < 4,
    ensures
        neighbour(neighbour(x, y, d).0, neighbour(x, y, d).1, opposite_dir(d)) == (x, y),
{
}

/// The fixed cells `(x, y)` and its neighbour on side `d`, when both are
/// fixed, hold tiles that fit.
pub open spec fn pair_fits(g: Seq<Vec<Cell>>, tiles: Seq<WfcTile>, x: int, y: int, d: int) -> bool {
    let (nx, ny) = neighbour(x, y, d);
    in_grid(nx, ny) && cell_at(g, x, y).collapsed && cell_at(g, nx, ny).collapsed ==> compatible(
        tiles[cell_at(g, x, y).options@[0] as int],
        tiles[cell_at(g, nx, ny).options@[0] as int],
        d,
    )
}

/// Every two fixed neighbours hold tiles that fit.
pub open spec fn fixed_cells_fit(g: Seq<Vec<Cell>>, tiles: Seq<WfcTile>) -> bool {
    forall|x: int, y: int, d: int| in_grid(x, y) && 0 <= d < 4 ==> #[trigger] pair_fits(g, tiles, x, y, d)
}

/// Every fixed cell holds exactly one tile.
pub open spec fn fixed_single(g: Seq<Vec<Cell>>) -> bool {
    forall|x: int, y: int| in_grid(x, y) && (#[trigger] cell_at(g, x, y)).collapsed ==> cell_at(g, x, y).options@.len() == 1
}

/// No cell is fixed yet.
pub open spec fn none_fixed(g: Seq<Vec<Cell>>) -> bool {
    forall|x: int, y: int| in_grid(x, y) ==> !(#[trigger] cell_at(g, x, y)).collapsed
}

/// One for each cell not yet fixed.
pub open spec fn open_count() -> spec_fn(Cell) -> nat {
    |c: Cell| if c.collapsed {
        0nat
    } else {
        1nat
    }
}

/// Tile `e` is the first exit of the set.
pub open spec fn first_exit(tiles: Seq<WfcTile>, e: int) -> bool {
    &&& 0 <= e < tiles.len()
    &&& is_exit_tile(tiles[e])
    &&& forall|i: int| 0 <= i < e ==> !is_exit_tile(#[trigger] tiles[i])
}

/// A finished grid: every cell fixed to one tile; one cell of the border holds
/// the first exit of the set, every other cell a tile before it; and every two
/// neighbours, the exit aside, hold tiles that fit.
pub open spec fn generated(g: Seq<Vec<Cell>>, tiles: Seq<WfcTile>) -> bool {
    exists|ex: int, ey: int, e: int|
        #![trigger first_exit(tiles, e), cell_at(g, ex, ey)]
        {
            &&& first_exit(tiles, e)
            &&& on_border((ex, ey), GRID_WIDTH as int, GRID_HEIGHT as int)
            &&& cell_at(g, ex, ey).options@ == seq![e as usize]
            &&& shaped(g)
            &&& forall|x: int, y: int|
                in_grid(x, y) ==> (#[trigger] cell_at(g, x, y)).collapsed && cell_at(g, x, y).options@.len() == 1
            &&& forall|x: int, y: int| in_grid(x, y) && (x, y) != (ex, ey) ==> (#[trigger] cell_at(g, x, y)).options@[0] < e
            &&& forall|x: int, y: int, d: int|
                in_grid(x, y) && 0 <= d < 4 && (x, y) != (ex, ey) && neighbour(x, y, d) != (ex, ey) ==> #[trigger] pair_fits(
                    g,
                    tiles,
                    x,
                    y,
                    d,
                )
        }
}

/// A grid whose cells may all still become any of the first `count` tiles.
fn fresh_grid(count: usize) -> (grid: Vec<Vec<Cell>>)
    ensures
        shaped(grid@),
        none_fixed(grid@),
        forall|x: int, y: int| in_grid(x, y) ==> (#[trigger] cell_at(grid@, x, y)).options@.len() == count,
        forall|x: int, y: int, i: int|
            in_grid(x, y) && 0 <= i < count ==> #[trigger] cell_at(grid@, x, y).options@[i] == i,
{
    let mut grid: Vec<Vec<Cell>> = Vec::new();
    let mut y: usize = 0;
    while y < GRID_HEIGHT
        invariant
            y <= GRID_HEIGHT,
            grid@.len() == y,
            forall|yy: int| 0 <= yy < y ==> (#[trigger] grid@[yy])@.len() == GRID_WIDTH,
            forall|xx: int, yy: int| 0 <= xx < GRID_WIDTH && 0 <= yy < y ==> !(#[trigger] cell_at(grid@, xx, yy)).collapsed
                && cell_at(grid@, xx, yy).options@.len() == count,
            forall|xx: int, yy: int, i: int|
                0 <= xx < GRID_WIDTH && 0 <= yy < y && 0 <= i < count ==> #[trigger] cell_at(grid@, xx, yy).options@[i] == i,
        decreases GRID_HEIGHT - y,
    {
        let mut row: Vec<Cell> = Vec::new();
        let mut x: usize = 0;
        while x < GRID_WIDTH
            invariant
                x <= GRID_WIDTH,
                row@.len() == x,
                forall|xx: int| 0 <= xx < x ==> !(#[trigger] row@[xx]).collapsed && row@[xx].options@.len() == count,
                forall|xx: int, i: int| 0 <= xx < x && 0 <= i < count ==> #[trigger] row@[xx].options@[i] == i,
            decreases GRID_WIDTH - x,
        {
            row.push(Cell::new(count));
            x = x + 1;
        }
        let ghost before = grid@;
        grid.push(row);
        proof {
            assert forall|xx: int, yy: int| 0 <= xx < GRID_WIDTH && 0 <= yy < y + 1 implies #[trigger] cell_at(grid@, xx, yy)
                == if yy < y { cell_at(before, xx, yy) } else { row@[xx] } by {
                if yy < y {
                    assert(grid@[yy] == before[yy]);
                }
            }
        }
        y = y + 1;
    }
    grid
}

/// The cells not yet fixed with the fewest options, row by row; none when
/// every cell is fixed.
fn least_entropy_cells(grid: &Vec<Vec<Cell>>) -> (cells: Vec<(usize, usize)>)
    requires
        shaped(grid@),
    ensures
        cells@.len() == 0 <==> forall|x: int, y: int| in_grid(x, y) ==> (#[trigger] cell_at(grid@, x, y)).collapsed,
        forall|k: int|
            0 <= k < cells@.len() ==> {
                let (cx, cy) = #[trigger] cells@[k];
                &&& in_grid(cx as int, cy as int)
                &&& !cell_at(grid@, cx as int, cy as int).collapsed
                &&& forall|x: int, y: int|
                    in_grid(x, y) && !(#[trigger] cell_at(grid@, x, y)).collapsed ==> cell_at(
                        grid@,
                        cx as int,
                        cy as int,
                    ).options@.len() <= cell_at(grid@, x, y).options@.len()
            },
{
    let mut cells: Vec<(usize, usize)> = Vec::new();
    let mut min_e: usize = 0;
    let mut y: usize = 0;
    while y < GRID_HEIGHT
        invariant
            shaped(grid@),
            y <= GRID_HEIGHT,
            cells@.len() == 0 <==> forall|x: int, yy: int|
                in_grid(x, yy) && yy < y ==> (#[trigger] cell_at(grid@, x, yy)).collapsed,
            forall|k: int|
                0 <= k < cells@.len() ==> {
                    let (cx, cy) = #[trigger] cells@[k];
                    &&& in_grid(cx as int, cy as int)
                    &&& cy < y
                    &&& !cell_at(grid@, cx as int, cy as int).collapsed
                    &&& cell_at(grid@, cx as int, cy as int).options@.len() == min_e
                },
            cells@.len() > 0 ==> forall|x: int, yy: int|
                in_grid(x, yy) && yy < y && !(#[trigger] cell_at(grid@, x, yy)).collapsed ==> min_e <= cell_at(
                    grid@,
                    x,
                    yy,
                ).options@.len(),
        decreases GRID_HEIGHT - y,
    {
        let mut x: usize = 0;
        while x < GRID_WIDTH
            invariant
                shaped(grid@),
                y < GRID_HEIGHT,
                x <= GRID_WIDTH,
                cells@.len() == 0 <==> forall|xx: int, yy: int|
                    in_grid(xx, yy) && (yy < y || (yy == y && xx < x)) ==> (#[trigger] cell_at(grid@, xx, yy)).collapsed,
                forall|k: int|
                    0 <= k < cells@.len() ==> {
                        let (cx, cy) = #[trigger] cells@[k];
                        &&& in_grid(cx as int, cy as int)
                        &&& (cy < y || (cy == y && cx < x))
                        &&& !cell_at(grid@, cx as int, cy as int).collapsed
                        &&& cell_at(grid@, cx as int, cy as int).options@.len() == min_e
                    },
                cells@.len() > 0 ==> forall|xx: int, yy: int|
                    in_grid(xx, yy) && (yy < y || (yy == y && xx < x)) && !(#[trigger] cell_at(grid@, xx, yy)).collapsed
                        ==> min_e <= cell_at(grid@, xx, yy).options@.len(),
            decreases GRID_WIDTH - x,
        {
            let cell = &grid[y][x];
            if !cell.collapsed {
                let e = cell.options.len();
                if cells.len() == 0 || e < min_e {
                    cells = Vec::new();
                    cells.push((x, y));
                    min_e = e;
                } else if e == min_e {
                    let ghost before = cells@;
                    cells.push((x, y));
                    proof {
                        assert forall|k: int| 0 <= k < before.len() implies #[trigger] cells@[k] == before[k] by {}
                    }
                }
            }
            proof {
                if cells@.len() > 0 {
                    let c = cells@[0];
                    assert(!cell_at(grid@, c.0 as int, c.1 as int).collapsed);
                }
            }
            x = x + 1;
        }
        y = y + 1;
    }
    cells
}

/// Fixing an open cell to one of its options keeps every two fixed neighbours
/// fitting, when the options of open cells fit their neighbours (or nothing
/// was fixed yet).
proof fn lemma_collapse_keeps_fit(
    before: Seq<Vec<Cell>>,
    after: Seq<Vec<Cell>>,
    tiles: Seq<WfcTile>,
    cx: int,
    cy: int,
    o: usize,
)
    requires
        shaped(before),
        shaped(after),
        in_grid(cx, cy),
        !cell_at(before, cx, cy).collapsed,
        cell_at(before, cx, cy).options@.contains(o),
        cell_at(after, cx, cy).collapsed,
        cell_at(after, cx, cy).options@ == seq![o],
        forall|x: int, y: int| in_grid(x, y) && (x, y) != (cx, cy) ==> #[trigger] cell_at(after, x, y) == cell_at(before, x, y),
        fixed_single(before),
        fixed_cells_fit(before, tiles),
        none_fixed(before) || arc_consistent(before, tiles),
    ensures
        fixed_cells_fit(after, tiles),
{
    let i = choose|i: int| 0 <= i < cell_at(before, cx, cy).options@.len() && cell_at(before, cx, cy).options@[i] == o;
    assert forall|x: int, y: int, d: int| in_grid(x, y) && 0 <= d < 4 implies #[trigger] pair_fits(after, tiles, x, y, d) by {
        let (nx, ny) = neighbour(x, y, d);
        if in_grid(nx, ny) && cell_at(after, x, y).collapsed && cell_at(after, nx, ny).collapsed {
            if (x, y) == (cx, cy) {
                assert(cell_at(after, nx, ny) == cell_at(before, nx, ny));
                assert(!none_fixed(before));
                assert(supported(before, tiles, cx, cy, cell_at(before, cx, cy).options@[i]));
                assert(supported_dir(before, tiles, cx, cy, o, d));
                let k = choose|k: int|
                    0 <= k < cell_at(before, nx, ny).options@.len() && compatible(
                        tiles[o as int],
                        tiles[#[trigger] cell_at(before, nx, ny).options@[k] as int],
                        d,
                    );
                assert(k == 0);
            } else if (nx, ny) == (cx, cy) {
                assert(cell_at(after, x, y) == cell_at(before, x, y));
                assert(!none_fixed(before));
                lemma_neighbour_back(x, y, d);
                let od = opposite_dir(d);
                assert(0 <= od < 4);
                assert(neighbour(cx, cy, od) == (x, y));
                assert(supported(before, tiles, cx, cy, cell_at(before, cx, cy).options@[i]));
                assert(supported_dir(before, tiles, cx, cy, o, od));
                let k = choose|k: int|
                    0 <= k < cell_at(before, x, y).options@.len() && compatible(
                        tiles[o as int],
                        tiles[#[trigger] cell_at(before, x, y).options@[k] as int],
                        od,
                    );
                assert(k == 0);
                lemma_compatible_symmetric(tiles[o as int], tiles[cell_at(before, x, y).options@[0] as int], od);
                assert(opposite_dir(od) == d);
            } else {
                assert(cell_at(after, x, y) == cell_at(before, x, y));
                assert(cell_at(after, nx, ny) == cell_at(before, nx, ny));
                assert(pair_fits(before, tiles, x, y, d));
            }
        }
    }
}

/// Narrowing keeps fixed cells as they are, so they still fit, still hold one
/// tile each, and options stay among the first `count` tiles.
proof fn lemma_narrowed_keeps(before: Seq<Vec<Cell>>, after: Seq<Vec<Cell>>, tiles: Seq<WfcTile>, count: int)
    requires
        shaped(before),
        narrowed(before, after),
        options_valid(before, count),
        fixed_single(before),
        fixed_cells_fit(before, tiles),
    ensures
        options_valid(after, count),
        fixed_single(after),
        fixed_cells_fit(after, tiles),
        grid_sum(after, open_count()) <= grid_sum(before, open_count()),
{
    assert forall|x: int, y: int, i: int|
        in_grid(x, y) && 0 <= i < cell_at(after, x, y).options@.len() implies #[trigger] cell_at(after, x, y).options@[i]
            < count by {
        let o = cell_at(after, x, y).options@[i];
        assert(cell_at(after, x, y).options@.contains(o));
        assert(cell_at(before, x, y).options@.contains(o));
        let j = choose|j: int| 0 <= j < cell_at(before, x, y).options@.len() && cell_at(before, x, y).options@[j] == o;
        assert(cell_at(before, x, y).options@[j] < count);
    }
    assert forall|x: int, y: int| in_grid(x, y) && (#[trigger] cell_at(after, x, y)).collapsed implies cell_at(after, x, y).options@.len() == 1 by {
        assert(cell_at(before, x, y).collapsed);
    }
    assert forall|x: int, y: int, d: int| in_grid(x, y) && 0 <= d < 4 implies #[trigger] pair_fits(after, tiles, x, y, d) by {
        assert(pair_fits(before, tiles, x, y, d));
        let (nx, ny) = neighbour(x, y, d);
        if in_grid(nx, ny) && cell_at(after, x, y).collapsed && cell_at(after, nx, ny).collapsed {
            assert(cell_at(after, x, y).options@ == cell_at(before, x, y).options@);
            assert(cell_at(after, nx, ny).options@ == cell_at(before, nx, ny).options@);
        }
    }
    assert forall|x: int, y: int|
        0 <= y < after.len() && 0 <= x < after[y]@.len() implies open_count()(#[trigger] cell_at(after, x, y)) <= open_count()(
            cell_at(before, x, y),
        ) by {
        assert(in_grid(x, y));
    }
    lemma_grid_sum_le(after, before, open_count());
}

/// Turns a walkable edge cell of ground into the exit, picked at random among
/// them; `false`, the grid as it was, when the border has no ground.
fn place_exit(grid: &mut Vec<Vec<Cell>>, tileset: &Vec<WfcTile>, exit_index: usize) -> (placed: bool)
    requires
        shaped(old(grid)@),
        forall|x: int, y: int|
            in_grid(x, y) ==> (#[trigger] cell_at(old(grid)@, x, y)).collapsed && cell_at(old(grid)@, x, y).options@.len() == 1
                && cell_at(old(grid)@, x, y).options@[0] < tileset@.len(),
    ensures
        shaped(final(grid)@),
        placed ==> exists|ex: int, ey: int|
            {
                &&& on_border((ex, ey), GRID_WIDTH as int, GRID_HEIGHT as int)
                &&& exit_ground(tileset@[cell_at(old(grid)@, ex, ey).options@[0] as int].tile_type)
                &&& (#[trigger] cell_at(final(grid)@, ex, ey)).collapsed
                &&& cell_at(final(grid)@, ex, ey).options@ == seq![exit_index]
                &&& forall|x: int, y: int|
                    in_grid(x, y) && (x, y) != (ex, ey) ==> #[trigger] cell_at(final(grid)@, x, y) == cell_at(old(grid)@, x, y)
            },
        !placed ==> final(grid)@ == old(grid)@,
        !placed ==> forall|x: int, y: int|
            on_border((x, y), GRID_WIDTH as int, GRID_HEIGHT as int) ==> !exit_ground(
                tileset@[(#[trigger] cell_at(old(grid)@, x, y)).options@[0] as int].tile_type,
            ),
{
    let edge_cells = edge_coordinates(GRID_WIDTH, GRID_HEIGHT);
    let mut candidates: Vec<(usize, usize)> = Vec::new();
    let mut i: usize = 0;
    while i < edge_cells.len()
        invariant
            shaped(grid@),
            i <= edge_cells@.len(),
            forall|c: (usize, usize)|
                #[trigger] edge_cells@.contains(c) <==> on_border((c.0 as int, c.1 as int), GRID_WIDTH as int, GRID_HEIGHT as int),
            forall|x: int, y: int|
                in_grid(x, y) ==> (#[trigger] cell_at(grid@, x, y)).collapsed && cell_at(grid@, x, y).options@.len() == 1
                    && cell_at(grid@, x, y).options@[0] < tileset@.len(),
            forall|k: int|
                0 <= k < candidates@.len() ==> {
                    let (cx, cy) = #[trigger] candidates@[k];
                    &&& on_border((cx as int, cy as int), GRID_WIDTH as int, GRID_HEIGHT as int)
                    &&& exit_ground(tileset@[cell_at(grid@, cx as int, cy as int).options@[0] as int].tile_type)
                },
            forall|k: int|
                0 <= k < i && exit_ground(
                    tileset@[cell_at(grid@, (#[trigger] edge_cells@[k]).0 as int, edge_cells@[k].1 as int).options@[0] as int].tile_type,
                ) ==> candidates@.len() > 0,
        decreases edge_cells@.len() - i,
    {
        let (x, y) = edge_cells[i];
        assert(edge_cells@.contains((x, y)));
        let cell = &grid[y][x];
        assert(*cell == cell_at(grid@, x as int, y as int));
        if cell.collapsed && is_exit_ground(&tileset[cell.options[0]].tile_type) {
            candidates.push((x, y));
        }
        i = i + 1;
    }
    match crate::random::pick(&candidates) {
        Some(c) => {
            let (x, y) = *c;
            let ghost before = grid@;
            let ghost k = choose|k: int| 0 <= k < candidates@.len() && candidates@[k] == (x, y);
            grid[y][x] = Cell { options: vec![exit_index], collapsed: true };
            proof {
                assert(cell_at(grid@, x as int, y as int).options@ == seq![exit_index]);
                assert forall|xx: int, yy: int|
                    in_grid(xx, yy) && (xx, yy) != (x as int, y as int) implies #[trigger] cell_at(grid@, xx, yy)
                        == cell_at(before, xx, yy) by {
                    if yy != y {
                        assert(grid@[yy] == before[yy]);
                    }
                }
                assert(shaped(grid@));
            }
            true
        },
        None => {
            proof {
                assert forall|x: int, y: int|
                    on_border((x, y), GRID_WIDTH as int, GRID_HEIGHT as int) implies !exit_ground(
                        tileset@[(#[trigger] cell_at(grid@, x, y)).options@[0] as int].tile_type,
                    ) by {
                    assert(edge_cells@.contains((x as usize, y as usize)));
                    let k = choose|k: int| 0 <= k < edge_cells@.len() && edge_cells@[k] == (x as usize, y as usize);
                    assert(edge_cells@[k] == (x as usize, y as usize));
                }
            }
            false
        },
    }
}

/// The set leaves nothing to chance that could make an attempt fail: there is
/// at least one tile before the first exit, every two of those tiles fit on
/// every side, and each of them is ground the exit may replace.
pub open spec fn conflict_free(tiles: Seq<WfcTile>) -> bool {
    forall|c: int|
        #[trigger] first_exit(tiles, c) ==> {
            &&& c >= 1
            &&& forall|a: int, b: int, d: int|
                0 <= a < c && 0 <= b < c && 0 <= d < 4 ==> #[trigger] compatible(tiles[a], tiles[b], d)
            &&& forall|a: int| 0 <= a < c ==> #[trigger] exit_ground(tiles[a].tile_type)
        }
}

/// When every two tiles a grid's cells may hold fit on every side, and no cell
/// is out of options, every option of every cell fits its neighbours.
proof fn lemma_all_fit_consistent(g: Seq<Vec<Cell>>, tiles: Seq<WfcTile>, count: int)
    requires
        shaped(g),
        no_empty_cell(g),
        options_valid(g, count),
        forall|a: int, b: int, d: int|
            0 <= a < count && 0 <= b < count && 0 <= d < 4 ==> #[trigger] compatible(tiles[a], tiles[b], d),
    ensures
        arc_consistent(g, tiles),
{
    assert forall|x: int, y: int, i: int|
        in_grid(x, y) && !cell_at(g, x, y).collapsed && 0 <= i < cell_at(g, x, y).options@.len() implies #[trigger] supported(
            g,
            tiles,
            x,
            y,
            cell_at(g, x, y).options@[i],
        ) by {
        let o = cell_at(g, x, y).options@[i];
        assert(o < count);
        assert forall|d: int| 0 <= d < 4 implies #[trigger] supported_dir(g, tiles, x, y, o, d) by {
            let (nx, ny) = neighbour(x, y, d);
            if in_grid(nx, ny) {
                assert(cell_at(g, nx, ny).options@.len() > 0);
                let p = cell_at(g, nx, ny).options@[0];
                assert(p < count);
                assert(compatible(tiles[o as int], tiles[p as int], d));
            }
        }
        assert(supported_dir(g, tiles, x, y, o, 0));
        assert(supported_dir(g, tiles, x, y, o, 1));
        assert(supported_dir(g, tiles, x, y, o, 2));
        assert(supported_dir(g, tiles, x, y, o, 3));
    }
}

/// A grid an attempt can stand at: every option is one of the first `count`
/// tiles, and each fixed cell holds one tile that fits its fixed neighbours.
pub open spec fn attempt_grid(g: Seq<Vec<Cell>>, tiles: Seq<WfcTile>, count: int) -> bool {
    &&& shaped(g)
    &&& options_valid(g, count)
    &&& fixed_single(g)
    &&& fixed_cells_fit(g, tiles)
}

/// Why an attempt on `tiles` gives up: it stood at a grid that cannot be
/// narrowed to one where every cell keeps an option and every option fits its
/// neighbours, or at a grid with every cell fixed and no ground on the border
/// for the exit.
pub open spec fn attempt_fails(tiles: Seq<WfcTile>) -> bool {
    exists|g: Seq<Vec<Cell>>, c: int|
        #![trigger attempt_grid(g, tiles, c)]
        {
            &&& first_exit(tiles, c)
            &&& attempt_grid(g, tiles, c)
            &&& {
                ||| forall|g2: Seq<Vec<Cell>>| !#[trigger] settles(g, g2, tiles)
                ||| {
                    &&& forall|x: int, y: int| in_grid(x, y) ==> (#[trigger] cell_at(g, x, y)).collapsed
                    &&& forall|x: int, y: int|
                        on_border((x, y), GRID_WIDTH as int, GRID_HEIGHT as int) ==> !exit_ground(
                            tiles[(#[trigger] cell_at(g, x, y)).options@[0] as int].tile_type,
                        )
                }
            }
        }
}

impl WFCState {
    /// One attempt at generating a grid from `tileset`: cells are fixed one at a
    /// time, each time an open cell with the fewest options picked at random and
    /// fixed to one of them at random, the others then narrowed to what fits; then
    /// a ground cell of the border, picked at random, becomes the first exit of the
    /// set. The grid is made of the tiles before that exit. `None` when the
    /// narrowing leaves a cell with no option, or the border has no ground.
    #[verifier::loop_isolation(false)]
    pub fn new(tileset: Vec<WfcTile>) -> (state: Option<WFCState>)
        requires
            exists|i: int| 0 <= i < tileset@.len() && is_exit_tile(#[trigger] tileset@[i]),
        ensures
            state matches Some(s) ==> s.tileset@ == tileset@ && generated(s.grid@, tileset@),
            conflict_free(tileset@) ==> state is Some,
            state is None ==> attempt_fails(tileset@),
    {
        let count = valid_tile_count(&tileset);
        let mut grid = fresh_grid(count);
        let ghost calm = conflict_free(tileset@);
        proof {
            assert(count < tileset@.len());
            assert(first_exit(tileset@, count as int));
            assert forall|x: int, y: int, i: int|
                in_grid(x, y) && 0 <= i < cell_at(grid@, x, y).options@.len() implies #[trigger] cell_at(grid@, x, y).options@[i]
                    < count by {}
            assert forall|x: int, y: int, d: int| in_grid(x, y) && 0 <= d < 4 implies #[trigger] pair_fits(grid@, tileset@, x, y, d) by {}
        }
        loop
            invariant
                shaped(grid@),
                count < tileset@.len(),
                first_exit(tileset@, count as int),
                options_valid(grid@, count as int),
                fixed_single(grid@),
                fixed_cells_fit(grid@, tileset@),
                none_fixed(grid@) || arc_consistent(grid@, tileset@),
                calm ==> no_empty_cell(grid@),
                calm ==> count >= 1,
                calm ==> forall|a: int, b: int, d: int|
                    0 <= a < count && 0 <= b < count && 0 <= d < 4 ==> #[trigger] compatible(tileset@[a], tileset@[b], d),
                calm ==> forall|a: int| 0 <= a < count ==> #[trigger] exit_ground(tileset@[a].tile_type),
            decreases grid_sum(grid@, open_count()),
        {
            let cells = least_entropy_cells(&grid);
            if cells.len() == 0 {
                break;
            }
            let (x, y) = match crate::random::pick(&cells) {
                Some(c) => *c,
                None => {
                    return None;
                },
            };
            let ghost k = choose|k: int| 0 <= k < cells@.len() && cells@[k] == (x, y);
            assert(cells@[k] == (x, y));
            proof {
                if calm {
                    assert(cell_at(grid@, x as int, y as int).options@.len() > 0);
                }
            }
            if grid[y][x].options.len() == 0 {
                proof {
                    let g = grid@;
                    assert forall|g2: Seq<Vec<Cell>>| !#[trigger] settles(g, g2, tileset@) by {
                        if settles(g, g2, tileset@) {
                            assert(cell_at(g2, x as int, y as int).options@.len() > 0);
                            let o = cell_at(g2, x as int, y as int).options@[0];
                            assert(cell_at(g2, x as int, y as int).options@.contains(o));
                            assert(cell_at(g, x as int, y as int).options@.contains(o));
                        }
                    }
                    assert(attempt_grid(g, tileset@, count as int));
                }
                return None;
            }
            let ghost before = grid@;
            let ghost opts = cell_at(before, x as int, y as int).options@;
            let options_copy = grid[y][x].options.clone();
            assert(options_copy@ =~= opts);
            let mut cell = Cell { options: options_copy, collapsed: false };
            cell.collapse();
            let ghost o = cell.options@[0];
            grid[y][x] = cell;
            proof {
                assert forall|xx: int, yy: int|
                    in_grid(xx, yy) && (xx, yy) != (x as int, y as int) implies #[trigger] cell_at(grid@, xx, yy)
                        == cell_at(before, xx, yy) by {
                    if yy != y {
                        assert(grid@[yy] == before[yy]);
                    }
                }
                assert(shaped(grid@));
                assert(cell_at(grid@, x as int, y as int).options@ =~= seq![o]);
                lemma_collapse_keeps_fit(before, grid@, tileset@, x as int, y as int, o);
                let j = choose|j: int| 0 <= j < opts.len() && opts[j] == o;
                assert(cell_at(before, x as int, y as int).options@[j] < count);
                assert forall|xx: int, yy: int, i: int|
                    in_grid(xx, yy) && 0 <= i < cell_at(grid@, xx, yy).options@.len() implies #[trigger] cell_at(
                        grid@,
                        xx,
                        yy,
                    ).options@[i] < count by {
                    if (xx, yy) != (x as int, y as int) {
                        assert(cell_at(before, xx, yy).options@[i] < count);
                    }
                }
                assert forall|xx: int, yy: int|
                    0 <= yy < grid@.len() && 0 <= xx < grid@[yy]@.len() implies open_count()(#[trigger] cell_at(grid@, xx, yy))
                        <= open_count()(cell_at(before, xx, yy)) by {
                    assert(in_grid(xx, yy));
                }
                assert(open_count()(cell_at(grid@, x as int, y as int)) < open_count()(cell_at(before, x as int, y as int)));
                lemma_grid_sum_le(grid@, before, open_count());
                assert forall|xx: int, yy: int, i: int|
                    in_grid(xx, yy) && 0 <= i < cell_at(grid@, xx, yy).options@.len() implies #[trigger] cell_at(
                        grid@,
                        xx,
                        yy,
                    ).options@[i] < tileset@.len() by {}
            }
            let ghost collapsed_grid = grid@;
            proof {
                if calm {
                    assert forall|xx: int, yy: int| in_grid(xx, yy) implies (#[trigger] cell_at(grid@, xx, yy)).options@.len()
                        > 0 by {
                        if (xx, yy) != (x as int, y as int) {
                            assert(cell_at(grid@, xx, yy) == cell_at(before, xx, yy));
                        }
                    }
                    lemma_all_fit_consistent(grid@, tileset@, count as int);
                }
            }
            if !propagate(&mut grid, &tileset) {
                proof {
                    assert(attempt_grid(collapsed_grid, tileset@, count as int));
                }
                return None;
            }
            proof {
                lemma_narrowed_keeps(collapsed_grid, grid@, tileset@, count as int);
            }
        }
        let ghost full = grid@;
        proof {
            assert forall|x: int, y: int|
                in_grid(x, y) implies (#[trigger] cell_at(grid@, x, y)).collapsed && cell_at(grid@, x, y).options@.len() == 1
                    && cell_at(grid@, x, y).options@[0] < tileset@.len() by {
                assert(cell_at(grid@, x, y).options@[0] < count);
            }
        }
        proof {
            if calm {
                assert(on_border((0, 0), GRID_WIDTH as int, GRID_HEIGHT as int));
                assert(cell_at(full, 0, 0).options@[0] < count);
                assert(exit_ground(tileset@[cell_at(full, 0, 0).options@[0] as int].tile_type));
            }
        }
        if !place_exit(&mut grid, &tileset, count) {
            proof {
                assert(grid@ == full);
                assert(attempt_grid(full, tileset@, count as int));
            }
            return None;
        }
        proof {
            let (ex, ey) = choose|ex: int, ey: int|
                {
                    &&& on_border((ex, ey), GRID_WIDTH as int, GRID_HEIGHT as int)
                    &&& exit_ground(tileset@[cell_at(full, ex, ey).options@[0] as int].tile_type)
                    &&& (#[trigger] cell_at(grid@, ex, ey)).collapsed
                    &&& cell_at(grid@, ex, ey).options@ == seq![count]
                    &&& forall|x: int, y: int|
                        in_grid(x, y) && (x, y) != (ex, ey) ==> #[trigger] cell_at(grid@, x, y) == cell_at(full, x, y)
                };
            assert forall|x: int, y: int|
                in_grid(x, y) implies (#[trigger] cell_at(grid@, x, y)).collapsed && cell_at(grid@, x, y).options@.len() == 1 by {
                if (x, y) != (ex, ey) {
                    assert(cell_at(grid@, x, y) == cell_at(full, x, y));
                }
            }
            assert forall|x: int, y: int| in_grid(x, y) && (x, y) != (ex, ey) implies (#[trigger] cell_at(grid@, x, y)).options@[0] < count by {
                assert(cell_at(grid@, x, y) == cell_at(full, x, y));
                assert(cell_at(full, x, y).options@[0] < count);
            }
            assert forall|x: int, y: int, d: int|
                in_grid(x, y) && 0 <= d < 4 && (x, y) != (ex, ey) && neighbour(x, y, d) != (ex, ey) implies #[trigger] pair_fits(
                    grid@,
                    tileset@,
                    x,
                    y,
                    d,
                ) by {
                assert(pair_fits(full, tileset@, x, y, d));
                let (nx, ny) = neighbour(x, y, d);
                assert(cell_at(grid@, x, y) == cell_at(full, x, y));
                if in_grid(nx, ny) {
                    assert(cell_at(grid@, nx, ny) == cell_at(full, nx, ny));
                }
            }
            assert(cell_at(grid@, ex, ey).options@ == seq![count as usize]);
        }
        Some(WFCState { grid, tileset })
    }
}

/// Every cell that is fixed holds a tile of the set.
pub open spec fn fixed_cells_valid(w: WFCState) -> bool {
    &&& shaped(w.grid@)
    &&& forall|x: int, y: int|
        in_grid(x, y) && (#[trigger] cell_at(w.grid@, x, y)).collapsed ==> cell_at(w.grid@, x, y).options@.len() >= 1
            && cell_at(w.grid@, x, y).options@[0] < w.tileset@.len()
}

/// Cell `(x, y)` is fixed to ground: grass, sand or stone.
pub open spec fn spawn_cell(w: WFCState, x: int, y: int) -> bool {
    &&& in_grid(x, y)
    &&& cell_at(w.grid@, x, y).collapsed
    &&& exit_ground(w.tileset@[cell_at(w.grid@, x, y).options@[0] as int].tile_type)
}

/// Where the player starts, in pixels: a cell fixed to ground, picked at
/// random; `None` when no cell is.
pub fn rand_player_spawn(wfc: &WFCState) -> (spawn: Option<(i32, i32)>)
    requires
        fixed_cells_valid(*wfc),
    ensures
        spawn is None <==> forall|x: int, y: int| !#[trigger] spawn_cell(*wfc, x, y),
        spawn matches Some((px, py)) ==> exists|x: int, y: int|
            #[trigger] spawn_cell(*wfc, x, y) && px == x * TILE_SIZE && py == y * TILE_SIZE,
{
    let mut spots: Vec<(usize, usize)> = Vec::new();
    let mut y: usize = 0;
    while y < GRID_HEIGHT
        invariant
            fixed_cells_valid(*wfc),
            y <= GRID_HEIGHT,
            forall|k: int| 0 <= k < spots@.len() ==> #[trigger] spawn_cell(*wfc, spots@[k].0 as int, spots@[k].1 as int),
            forall|xx: int, yy: int| #[trigger] spawn_cell(*wfc, xx, yy) && yy < y ==> spots@.len() > 0,
        decreases GRID_HEIGHT - y,
    {
        let mut x: usize = 0;
        while x < GRID_WIDTH
            invariant
                fixed_cells_valid(*wfc),
                y < GRID_HEIGHT,
                x <= GRID_WIDTH,
                forall|k: int| 0 <= k < spots@.len() ==> #[trigger] spawn_cell(*wfc, spots@[k].0 as int, spots@[k].1 as int),
                forall|xx: int, yy: int| #[trigger] spawn_cell(*wfc, xx, yy) && (yy < y || (yy == y && xx < x)) ==> spots@.len() > 0,
            decreases GRID_WIDTH - x,
        {
            let cell = &wfc.grid[y][x];
            assert(*cell == cell_at(wfc.grid@, x as int, y as int));
            if cell.collapsed && is_exit_ground(&wfc.tileset[cell.options[0]].tile_type) {
                let ghost before = spots@;
                spots.push((x, y));
                proof {
                    assert forall|k: int| 0 <= k < spots@.len() implies #[trigger] spawn_cell(
                        *wfc,
                        spots@[k].0 as int,
                        spots@[k].1 as int,
                    ) by {
                        if k < before.len() {
                            assert(spots@[k] == before[k]);
                        }
                    }
                }
            }
            x = x + 1;
        }
        y = y + 1;
    }
    match crate::random::pick(&spots) {
        Some(p) => {
            let (x, y) = *p;
            let ghost k = choose|k: int| 0 <= k < spots@.len() && spots@[k] == (x, y);
            assert(spawn_cell(*wfc, spots@[k].0 as int, spots@[k].1 as int));
            Some(((x * TILE_SIZE) as i32, (y * TILE_SIZE) as i32))
        },
        None => None,
    }
}

/// The picture of a tile kind on a generated level; `None` for kinds that are
/// left out.
pub open spec fn wfc_texture(t: TileType) -> Option<Seq<char>> {
    match t {
        TileType::Stone => Some("resources/textures/tile.png"@),
        TileType::Water => Some("resources/textures/water.png"@),
        TileType::Grass => Some("resources/textures/grass.png"@),
        TileType::Sand => Some("resources/textures/sand.png"@),
        TileType::Rock => Some("resources/textures/rock.png"@),
        TileType::Tree => Some("resources/textures/tree.png"@),
        TileType::Wall => Some("resources/textures/wall.png"@),
        TileType::Inventory => Some("resources/textures/cogwheel.png"@),
        TileType::Exit(_) => Some("resources/textures/exit.png"@),
        _ => None,
    }
}

/// The picture of a tile kind on a generated level.
fn wfc_texture_path(t: &TileType) -> (path: Option<&'static str>)
    ensures
        match (path, wfc_texture(*t)) {
            (Some(p), Some(q)) => p@ == q,
            (None, None) => true,
            _ => false,
        },
{
    match t {
        TileType::Stone => Some("resources/textures/tile.png"),
        TileType::Water => Some("resources/textures/water.png"),
        TileType::Grass => Some("resources/textures/grass.png"),
        TileType::Sand => Some("resources/textures/sand.png"),
        TileType::Rock => Some("resources/textures/rock.png"),
        TileType::Tree => Some("resources/textures/tree.png"),
        TileType::Wall => Some("resources/textures/wall.png"),
        TileType::Inventory => Some("resources/textures/cogwheel.png"),
        TileType::Exit(_) => Some("resources/textures/exit.png"),
        _ => None,
    }
}

/// A tile of ground kind `k` stands in `cell`, drawn with the picture that
/// a tile of that kind read from a level picture (a pixel of its colour) gets.
pub open spec fn ground_tile_at(cell: Option<Tile>, k: TileType) -> bool {
    match cell {
        Some(tile) => tile.tile_type == k && match (tile.texture_data, plain_tile(k.color_of())) {
            (Some(d), Some((_, p))) => d.path@ == p,
            _ => false,
        },
        None => false,
    }
}

/// The two ways a tile comes to be agree on its kind and picture: a pixel
/// reads as the kind drawn in its colour, with the picture a generated level
/// gives that kind; and every kind of ground is read from its colour, so a
/// generated level draws it too.
pub proof fn lemma_tile_pictures_agree(rgb: Rgb, k: TileType)
    ensures
        plain_tile(rgb) matches Some((t, path)) ==> t.color_of() == rgb && wfc_texture(t) == Some(path),
        exit_ground(k) ==> (plain_tile(k.color_of()) matches Some((t, path)) && t == k && wfc_texture(k) == Some(path)),
{
}

/// The tile that cell `(x, y)`, fixed to tile `t` of the set, becomes.
pub open spec fn level_cell(cell: Option<Tile>, t: TileType, x: int, y: int) -> bool {
    match wfc_texture(t) {
        Some(path) => cell matches Some(tile) && {
            &&& tile.x == x * TILE_SIZE && tile.y == y * TILE_SIZE && tile.size == TILE_SIZE
            &&& tile.tile_type == t
            &&& tile.bounding_box is None
            &&& tile.texture_data matches Some(d) && d.path@ == path && d.width == 0 && d.height == 0 && d.x == 0
                && d.y == 0
        },
        None => cell is None,
    }
}

impl WFCState {
    /// The generated grid as a level of one layer, a tile of `TILE_SIZE`
    /// pixels for each cell, the player starting on ground picked at random;
    /// `None` when no cell is ground.
    pub fn to_level(&self) -> (level: Option<Level>)
        requires
            shaped(self.grid@),
            forall|x: int, y: int|
                in_grid(x, y) ==> (#[trigger] cell_at(self.grid@, x, y)).options@.len() >= 1 && cell_at(
                    self.grid@,
                    x,
                    y,
                ).options@[0] < self.tileset@.len(),
        ensures
            level is None <==> forall|x: int, y: int| !#[trigger] spawn_cell(*self, x, y),
            level matches Some(l) ==> {
                &&& l.tile_size == TILE_SIZE
                &&& l.tiles@.len() == 1
                &&& l.tiles@[0].wf()
                &&& l.tiles@[0].width == GRID_WIDTH
                &&& l.tiles@[0].height == GRID_HEIGHT
                &&& forall|x: int, y: int|
                    in_grid(x, y) ==> level_cell(
                        #[trigger] l.tiles@[0].cell(x, y),
                        self.tileset@[cell_at(self.grid@, x, y).options@[0] as int].tile_type,
                        x,
                        y,
                    )
                &&& exists|x: int, y: int|
                    #[trigger] spawn_cell(*self, x, y) && l.player_spawn.0 == x * TILE_SIZE && l.player_spawn.1 == y
                        * TILE_SIZE
                &&& forall|x: int, y: int|
                    #![trigger l.tiles@[0].cell(x, y)]
                    in_grid(x, y) && exit_ground(self.tileset@[cell_at(self.grid@, x, y).options@[0] as int].tile_type)
                        ==> ground_tile_at(
                        l.tiles@[0].cell(x, y),
                        self.tileset@[cell_at(self.grid@, x, y).options@[0] as int].tile_type,
                    )
            },
    {
        let mut rows: Vec<Vec<Option<Tile>>> = Vec::new();
        let mut y: usize = 0;
        while y < GRID_HEIGHT
            invariant
                shaped(self.grid@),
                forall|x: int, y: int|
                    in_grid(x, y) ==> (#[trigger] cell_at(self.grid@, x, y)).options@.len() >= 1 && cell_at(
                        self.grid@,
                        x,
                        y,
                    ).options@[0] < self.tileset@.len(),
                y <= GRID_HEIGHT,
                rows@.len() == y,
                forall|yy: int| 0 <= yy < y ==> (#[trigger] rows@[yy])@.len() == GRID_WIDTH,
                forall|xx: int, yy: int|
                    0 <= xx < GRID_WIDTH && 0 <= yy < y ==> level_cell(
                        #[trigger] rows@[yy]@[xx],
                        self.tileset@[cell_at(self.grid@, xx, yy).options@[0] as int].tile_type,
                        xx,
                        yy,
                    ),
            decreases GRID_HEIGHT - y,
        {
            let mut row: Vec<Option<Tile>> = Vec::new();
            let mut x: usize = 0;
            while x < GRID_WIDTH
                invariant
                    shaped(self.grid@),
                    forall|x: int, y: int|
                        in_grid(x, y) ==> (#[trigger] cell_at(self.grid@, x, y)).options@.len() >= 1 && cell_at(
                            self.grid@,
                            x,
                            y,
                        ).options@[0] < self.tileset@.len(),
                    y < GRID_HEIGHT,
                    x <= GRID_WIDTH,
                    row@.len() == x,
                    forall|xx: int|
                        0 <= xx < x ==> level_cell(
                            #[trigger] row@[xx],
                            self.tileset@[cell_at(self.grid@, xx, y as int).options@[0] as int].tile_type,
                            xx,
                            y as int,
                        ),
                decreases GRID_WIDTH - x,
            {
                let cell = &self.grid[y][x];
                assert(*cell == cell_at(self.grid@, x as int, y as int));
                let tile_type = &self.tileset[cell.options[0]].tile_type;
                let tile = match wfc_texture_path(tile_type) {
                    Some(path) => {
                        let mut tile = Tile::new(
                            (x * TILE_SIZE) as i32,
                            (y * TILE_SIZE) as i32,
                            TILE_SIZE as u32,
                            tile_type.duplicate(),
                            None,
                        );
                        tile.texture_data = Some(TextureData::new(String::from_str(path)));
                        Some(tile)
                    },
                    None => None,
                };
                row.push(tile);
                x = x + 1;
            }
            let ghost before = rows@;
            rows.push(row);
            proof {
                assert forall|xx: int, yy: int|
                    0 <= xx < GRID_WIDTH && 0 <= yy < y + 1 implies level_cell(
                        #[trigger] rows@[yy]@[xx],
                        self.tileset@[cell_at(self.grid@, xx, yy).options@[0] as int].tile_type,
                        xx,
                        yy,
                    ) by {
                    if yy < y {
                        assert(rows@[yy] == before[yy]);
                    }
                }
            }
            y = y + 1;
        }
        proof {
            assert forall|x: int, y: int| in_grid(x, y) && (#[trigger] cell_at(self.grid@, x, y)).collapsed implies cell_at(
                self.grid@,
                x,
                y,
            ).options@.len() >= 1 && cell_at(self.grid@, x, y).options@[0] < self.tileset@.len() by {}
        }
        let spawn = match rand_player_spawn(self) {
            Some(s) => s,
            None => {
                return None;
            },
        };
        let layer = Layer { width: GRID_WIDTH, height: GRID_HEIGHT, cells: rows };
        proof {
            assert forall|x: int, y: int|
                #![trigger layer.cell(x, y)]
                in_grid(x, y) && exit_ground(self.tileset@[cell_at(self.grid@, x, y).options@[0] as int].tile_type)
                    implies ground_tile_at(
                    layer.cell(x, y),
                    self.tileset@[cell_at(self.grid@, x, y).options@[0] as int].tile_type,
                ) by {
                let k = self.tileset@[cell_at(self.grid@, x, y).options@[0] as int].tile_type;
                assert(level_cell(layer.cell(x, y), k, x, y));
                lemma_tile_pictures_agree(k.color_of(), k);
            }
        }
        let mut tiles: Vec<Layer> = Vec::new();
        tiles.push(layer);
        Some(Level { tiles, player_spawn: spawn, tile_size: TILE_SIZE as i32 })
    }
}

} // verus!
