//! Picks, for a tile, the part of its tile set's picture that fits the tiles
//! around it.
use vstd::prelude::*;
use crate::environment::texture_data::TextureData;
use crate::environment::tile_type::{TileKey, TileType};

verus! {

/// The side of one tile in a tile set's picture, in pixels.
pub const TILE_SIZE: u32 = 16;

/// How a tile set's picture is laid out.
#[derive(Clone, Copy, Debug, PartialEq, Eq, Structural, Hash)]
pub enum TileSetType {
    /// One picture for every tile.
    Simple,
    /// A 3 by 3 block: corners, sides and middle.
    Complex,
    /// The full 47-piece layout.
    Full,
    /// A picture with variations, drawn whole.
    FullVariants,
}

/// A rule of a layout: a pattern over the 3 by 3 neighbourhood, read row by
/// row (1: a neighbour of the same kind is there, 0: it is not, 2: either), and
/// the column and row, in tiles, of the piece it selects.
pub type Rule = ([u8; 9], u32, u32);

/// The rules of the 3 by 3 layout, in the order they are tried.
pub const COMPLEX_RULES: [Rule; 9] = [
    ([2, 0, 2, 0, 0, 1, 2, 1, 2], 0, 0),
    ([2, 0, 2, 1, 0, 0, 2, 1, 2], 2, 0),
    ([2, 1, 2, 0, 0, 1, 2, 0, 2], 0, 2),
    ([2, 1, 2, 1, 0, 0, 2, 0, 2], 2, 2),
    ([2, 0, 2, 1, 0, 1, 2, 1, 2], 1, 0),
    ([2, 1, 2, 0, 0, 1, 0, 1, 2], 0, 1),
    ([2, 1, 2, 1, 0, 1, 2, 0, 2], 1, 2),
    ([2, 1, 2, 1, 0, 0, 2, 1, 2], 2, 1),
    ([2, 1, 2, 1, 0, 1, 2, 1, 2], 1, 1),
];

/// The rules of the 47-piece layout, in the order they are tried.
pub const FULL_RULES: [Rule; 47] = [
    ([1, 1, 0, 1, 0, 1, 0, 1, 1], 2, 6),
    ([0, 1, 1, 1, 0, 1, 1, 1, 0], 3, 6),
    ([0, 1, 0, 1, 0, 1, 1, 1, 0], 4, 2),
    ([0, 1, 1, 1, 0, 1, 0, 1, 0], 5, 2),
    ([1, 1, 0, 1, 0, 1, 0, 1, 0], 4, 3),
    ([0, 1, 0, 1, 0, 1, 0, 1, 1], 5, 3),
    ([2, 1, 1, 0, 0, 1, 2, 1, 0], 0, 4),
    ([1, 1, 2, 1, 0, 0, 0, 1, 2], 1, 4),
    ([2, 1, 0, 0, 0, 1, 2, 1, 1], 0, 5),
    ([0, 1, 2, 1, 0, 0, 1, 1, 2], 1, 5),
    ([2, 0, 2, 1, 0, 1, 1, 1, 0], 2, 4),
    ([2, 0, 2, 1, 0, 1, 0, 1, 2], 3, 4),
    ([2, 1, 0, 1, 0, 1, 2, 0, 2], 2, 5),
    ([0, 1, 2, 1, 0, 1, 2, 0, 2], 3, 5),
    ([1, 1, 1, 1, 0, 1, 1, 1, 0], 4, 0),
    ([1, 1, 1, 1, 0, 1, 0, 1, 1], 5, 0),
    ([1, 1, 0, 1, 0, 1, 1, 1, 1], 4, 1),
    ([0, 1, 1, 1, 0, 1, 1, 1, 1], 5, 1),
    ([0, 1, 1, 1, 0, 1, 0, 1, 1], 6, 0),
    ([0, 1, 0, 1, 0, 1, 1, 1, 1], 6, 1),
    ([1, 1, 0, 1, 0, 1, 1, 1, 0], 6, 2),
    ([1, 1, 1, 1, 0, 1, 0, 1, 0], 6, 3),
    ([2, 0, 2, 0, 0, 1, 2, 1, 0], 4, 4),
    ([2, 0, 2, 1, 0, 0, 0, 1, 2], 6, 4),
    ([2, 1, 0, 0, 0, 1, 2, 0, 2], 4, 6),
    ([0, 1, 2, 1, 0, 0, 2, 0, 2], 6, 6),
    ([2, 0, 2, 1, 0, 1, 0, 1, 0], 5, 4),
    ([2, 1, 0, 0, 0, 1, 0, 1, 0], 4, 5),
    ([0, 1, 0, 1, 0, 1, 2, 0, 2], 5, 6),
    ([0, 1, 2, 1, 0, 0, 0, 1, 2], 6, 5),
    ([0, 1, 0, 1, 0, 1, 0, 1, 0], 5, 5),
    ([2, 0, 2, 0, 0, 0, 2, 0, 2], 3, 3),
    ([2, 1, 2, 0, 0, 0, 2, 1, 2], 3, 1),
    ([2, 0, 2, 1, 0, 1, 2, 0, 2], 1, 3),
    ([2, 0, 2, 0, 0, 0, 2, 1, 2], 3, 0),
    ([2, 0, 2, 1, 0, 0, 2, 0, 2], 2, 3),
    ([2, 1, 2, 0, 0, 0, 2, 0, 2], 3, 2),
    ([2, 0, 2, 0, 0, 1, 2, 0, 2], 0, 3),
    ([2, 0, 2, 0, 0, 1, 2, 1, 2], 0, 0),
    ([2, 0, 2, 1, 0, 0, 2, 1, 2], 2, 0),
    ([2, 1, 2, 0, 0, 1, 2, 0, 2], 0, 2),
    ([2, 1, 2, 1, 0, 0, 2, 0, 2], 2, 2),
    ([2, 0, 2, 1, 0, 1, 2, 1, 2], 1, 0),
    ([2, 1, 2, 0, 0, 1, 0, 1, 2], 0, 1),
    ([2, 1, 2, 1, 0, 1, 2, 0, 2], 1, 2),
    ([2, 1, 2, 1, 0, 0, 2, 1, 2], 2, 1),
    ([2, 1, 2, 1, 0, 1, 2, 1, 2], 1, 1),
];

/// `pattern` fits the neighbourhood `n`: every position but the middle that the
/// pattern does not leave open is filled exactly where the pattern says 1.
pub open spec fn fits(pattern: [u8; 9], n: [[bool; 3]; 3]) -> bool {
    forall|i: int|
        0 <= i < 9 && i != 4 && pattern@[i] != 2 ==> ((pattern@[i] == 1) == #[trigger] n@[i / 3]@[i % 3])
}

/// The piece selected by the first rule, from index `from` on, that fits `n`.
pub open spec fn first_fit(rules: Seq<Rule>, n: [[bool; 3]; 3], from: int) -> Option<(u32, u32)>
    decreases rules.len() - from,
{
    if from < 0 || from >= rules.len() {
        None
    } else if fits(rules[from].0, n) {
        Some((rules[from].1, rules[from].2))
    } else {
        first_fit(rules, n, from + 1)
    }
}

/// The rectangle (width, height, x, y) that a tile of a set laid out as `set`
/// takes from the set's picture, given its neighbourhood `n`.
pub open spec fn texture_rect(set: TileSetType, n: [[bool; 3]; 3]) -> (u32, u32, u32, u32) {
    match set {
        TileSetType::Simple => (0, 0, 0, 0),
        TileSetType::Complex => match first_fit(COMPLEX_RULES@, n, 0) {
            Some((c, r)) => (TILE_SIZE, TILE_SIZE, (c * TILE_SIZE) as u32, (r * TILE_SIZE) as u32),
            None => (TILE_SIZE, TILE_SIZE, TILE_SIZE, TILE_SIZE),
        },
        TileSetType::Full => match first_fit(FULL_RULES@, n, 0) {
            Some((c, r)) => (TILE_SIZE, TILE_SIZE, (c * TILE_SIZE) as u32, (r * TILE_SIZE) as u32),
            None => (0, 0, 0, 0),
        },
        TileSetType::FullVariants => (0, 0, 0, 0),
    }
}

/// Whether `pattern` fits the neighbourhood `neighbours`.
pub fn check(pattern: &[u8; 9], neighbours: &[[bool; 3]; 3]) -> (fit: bool)
    ensures
        fit == fits(*pattern, *neighbours),
{
    let mut i: usize = 0;
    while i < 9
        invariant
            i <= 9,
            forall|j: int|
                0 <= j < i && j != 4 && pattern@[j] != 2 ==> ((pattern@[j] == 1) == #[trigger] neighbours@[j / 3]@[j % 3]),
        decreases 9 - i,
    {
        if i != 4 && pattern[i] != 2 {
            let filled = neighbours[i / 3][i % 3];
            if (pattern[i] == 1) != filled {
                assert(!((pattern@[i as int] == 1) == neighbours@[i as int / 3]@[i as int % 3]));
                return false;
            }
        }
        i = i + 1;
    }
    true
}

/// The piece selected by the first of `rules` that fits `neighbours`.
fn first_fitting(rules: &[Rule], neighbours: &[[bool; 3]; 3]) -> (piece: Option<(u32, u32)>)
    requires
        forall|i: int| 0 <= i < rules@.len() ==> (#[trigger] rules@[i]).1 <= 6 && rules@[i].2 <= 6,
    ensures
        piece == first_fit(rules@, *neighbours, 0),
        piece matches Some((c, r)) ==> c <= 6 && r <= 6,
{
    let mut i: usize = 0;
    while i < rules.len()
        invariant
            i <= rules@.len(),
            forall|i: int| 0 <= i < rules@.len() ==> (#[trigger] rules@[i]).1 <= 6 && rules@[i].2 <= 6,
            first_fit(rules@, *neighbours, 0) == first_fit(rules@, *neighbours, i as int),
        decreases rules@.len() - i,
    {
        if check(&rules[i].0, neighbours) {
            return Some((rules[i].1, rules[i].2));
        }
        i = i + 1;
    }
    None
}

/// The tile sets of the tile kinds: for each kind its layout and the path of
/// its picture.
pub struct Autotiler {
    tiles_info: Vec<(TileType, TileSetType, String)>,
}

impl Autotiler {
    /// The key of the `i`-th entry.
    pub closed spec fn key_at(&self, i: int) -> TileKey {
        self.tiles_info@[i].0.key()
    }

    /// No two entries are for the same tile kind.
    pub closed spec fn wf(&self) -> bool {
        forall|i: int, j: int|
            0 <= i < self.tiles_info@.len() && 0 <= j < self.tiles_info@.len() && i != j
                ==> #[trigger] self.key_at(i) != #[trigger] self.key_at(j)
    }

    /// The entry for `k` exists at index `i`.
    pub closed spec fn entry_at(&self, k: TileKey, i: int) -> bool {
        0 <= i < self.tiles_info@.len() && self.key_at(i) == k
    }
}

impl View for Autotiler {
    type V = Map<TileKey, (TileSetType, Seq<char>)>;

    open spec fn view(&self) -> Map<TileKey, (TileSetType, Seq<char>)> {
        self.as_map()
    }
}

impl Autotiler {
    /// Each tile kind's layout and picture path.
    pub closed spec fn as_map(&self) -> Map<TileKey, (TileSetType, Seq<char>)> {
        Map::new(
            |k: TileKey| exists|i: int| self.entry_at(k, i),
            |k: TileKey|
                {
                    let i = choose|i: int| self.entry_at(k, i);
                    (self.tiles_info@[i].1, self.tiles_info@[i].2@)
                },
        )
    }
}

impl Autotiler {
    /// No tile sets yet.
    pub fn new() -> (tiler: Autotiler)
        ensures
            tiler.wf(),
            tiler@ == Map::<TileKey, (TileSetType, Seq<char>)>::empty(),
    {
        let tiler = Autotiler { tiles_info: Vec::new() };
        assert(tiler@ =~= Map::<TileKey, (TileSetType, Seq<char>)>::empty());
        tiler
    }

    /// Sets the layout and picture of `tile_type`, replacing what it had.
    pub fn add_tile(&mut self, tile_type: TileType, tile_set_type: TileSetType, path: String)
        requires
            old(self).wf(),
        ensures
            final(self).wf(),
            final(self)@ == old(self)@.insert(tile_type.key(), (tile_set_type, path@)),
    {
        let ghost k = tile_type.key();
        let ghost before = *self;
        let mut i: usize = 0;
        while i < self.tiles_info.len()
            invariant
                *self == before,
                before == *old(self),
                before.wf(),
                k == tile_type.key(),
                i <= self.tiles_info@.len(),
                forall|j: int| 0 <= j < i ==> self.key_at(j) != k,
            decreases self.tiles_info@.len() - i,
        {
            let same = self.tiles_info[i].0.same_as(&tile_type);
            assert(same == (self.key_at(i as int) == k));
            if same {
                self.tiles_info.set(i, (tile_type, tile_set_type, path));
                proof {
                    assert forall|a: int| 0 <= a < self.tiles_info@.len() implies #[trigger] self.key_at(a) == before.key_at(a) by {
                        if a != i {
                            assert(self.tiles_info@[a] == before.tiles_info@[a]);
                        }
                    }
                    assert forall|a: int, b: int|
                        0 <= a < self.tiles_info@.len() && 0 <= b < self.tiles_info@.len() && a != b
                            implies #[trigger] self.key_at(a) != #[trigger] self.key_at(b) by {
                        assert(before.key_at(a) != before.key_at(b));
                    }
                    assert forall|kk: TileKey| #[trigger] self@.contains_key(kk) == before@.insert(k, (tile_set_type, path@)).contains_key(kk) by {
                        if before@.insert(k, (tile_set_type, path@)).contains_key(kk) && kk != k {
                            let w = choose|w: int| before.entry_at(kk, w);
                            assert(self.entry_at(kk, w));
                        }
                        if self@.contains_key(kk) && kk != k {
                            let w = choose|w: int| self.entry_at(kk, w);
                            assert(before.entry_at(kk, w));
                        }
                        if kk == k {
                            assert(self.entry_at(kk, i as int));
                        }
                    }
                    assert forall|kk: TileKey| #[trigger] self@.contains_key(kk) implies self@[kk] == before@.insert(k, (tile_set_type, path@))[kk] by {
                        let w = choose|w: int| self.entry_at(kk, w);
                        if kk == k {
                            assert(w == i);
                        } else {
                            assert(before.entry_at(kk, w));
                            let v = choose|v: int| before.entry_at(kk, v);
                            assert(v == w);
                        }
                    }
                    assert(self@ =~= before@.insert(k, (tile_set_type, path@)));
                }
                return;
            }
            i = i + 1;
        }
        self.tiles_info.push((tile_type, tile_set_type, path));
        proof {
            let n = before.tiles_info@.len() as int;
            assert(self.key_at(n) == k);
            assert forall|a: int| 0 <= a < n implies #[trigger] self.key_at(a) == before.key_at(a) by {
                assert(self.tiles_info@[a] == before.tiles_info@[a]);
            }
            assert forall|a: int, b: int|
                0 <= a < self.tiles_info@.len() && 0 <= b < self.tiles_info@.len() && a != b
                    implies #[trigger] self.key_at(a) != #[trigger] self.key_at(b) by {
                if a < n && b < n {
                    assert(before.key_at(a) != before.key_at(b));
                } else if a < n {
                    assert(before.key_at(a) != k);
                } else if b < n {
                    assert(before.key_at(b) != k);
                }
            }
            assert forall|kk: TileKey| #[trigger] self@.contains_key(kk) == before@.insert(k, (tile_set_type, path@)).contains_key(kk) by {
                if before@.insert(k, (tile_set_type, path@)).contains_key(kk) && kk != k {
                    let w = choose|w: int| before.entry_at(kk, w);
                    assert(self.entry_at(kk, w));
                }
                if self@.contains_key(kk) && kk != k {
                    let w = choose|w: int| self.entry_at(kk, w);
                    assert(before.entry_at(kk, w));
                }
                if kk == k {
                    assert(self.entry_at(kk, n));
                }
            }
            assert forall|kk: TileKey| #[trigger] self@.contains_key(kk) implies self@[kk] == before@.insert(k, (tile_set_type, path@))[kk] by {
                let w = choose|w: int| self.entry_at(kk, w);
                if kk == k {
                    assert(w == n);
                } else {
                    assert(before.entry_at(kk, w));
                    let v = choose|v: int| before.entry_at(kk, v);
                    assert(v == w);
                }
            }
            assert(self@ =~= before@.insert(k, (tile_set_type, path@)));
        }
    }

    /// The picture for a tile of kind `tile_type` whose neighbourhood is
    /// `neighbours` (row by row; `true` where a tile of the same kind is):
    /// `None` when the kind has no tile set, else the piece of its set's
    /// picture that its layout selects.
    pub fn get_tile_texture(&self, neighbours: [[bool; 3]; 3], tile_type: TileType) -> (texture: Option<TextureData>)
        requires
            self.wf(),
        ensures
            texture is None <==> !self@.contains_key(tile_type.key()),
            texture matches Some(t) ==> {
                let (set, path) = self@[tile_type.key()];
                &&& t.path@ == path
                &&& (t.width, t.height, t.x, t.y) == texture_rect(set, neighbours)
            },
    {
        let ghost k = tile_type.key();
        let mut i: usize = 0;
        while i < self.tiles_info.len()
            invariant
                self.wf(),
                k == tile_type.key(),
                i <= self.tiles_info@.len(),
                forall|j: int| 0 <= j < i ==> self.key_at(j) != k,
            decreases self.tiles_info@.len() - i,
        {
            let same = self.tiles_info[i].0.same_as(&tile_type);
            assert(same == (self.key_at(i as int) == k));
            if same {
                proof {
                    assert(self.entry_at(k, i as int));
                    let w = choose|w: int| self.entry_at(k, w);
                    assert(w == i);
                }
                let path = self.tiles_info[i].2.clone();
                let texture = match self.tiles_info[i].1 {
                    TileSetType::Simple => TextureData::new(path),
                    TileSetType::Complex => match first_fitting(&COMPLEX_RULES, &neighbours) {
                        Some((c, r)) => TextureData::new_full(path, TILE_SIZE, TILE_SIZE, c * TILE_SIZE, r * TILE_SIZE),
                        None => TextureData::new_full(path, TILE_SIZE, TILE_SIZE, TILE_SIZE, TILE_SIZE),
                    },
                    TileSetType::Full => match first_fitting(&FULL_RULES, &neighbours) {
                        Some((c, r)) => TextureData::new_full(path, TILE_SIZE, TILE_SIZE, c * TILE_SIZE, r * TILE_SIZE),
                        None => TextureData::new(path),
                    },
                    TileSetType::FullVariants => TextureData::new(path),
                };
                return Some(texture);
            }
            i = i + 1;
        }
        None
    }
}

/// After `add_tile` for kind `t`, looking `t` up finds the layout and picture
/// just given, and every other kind finds what it found before.
pub proof fn lemma_add_then_lookup(
    before: Map<TileKey, (TileSetType, Seq<char>)>,
    after: Map<TileKey, (TileSetType, Seq<char>)>,
    t: TileType,
    set: TileSetType,
    path: Seq<char>,
    other: TileKey,
)
    requires
        after == before.insert(t.key(), (set, path)),
    ensures
        after.contains_key(t.key()),
        after[t.key()] == (set, path),
        other != t.key() ==> after.contains_key(other) == before.contains_key(other),
        other != t.key() && before.contains_key(other) ==> after[other] == before[other],
{
}

/// A kind laid out as a single picture, or as variations, always gets the
/// whole picture, whatever its neighbours; a 3 by 3 set always gets one tile.
pub proof fn lemma_whole_pictures(n: [[bool; 3]; 3])
    ensures
        texture_rect(TileSetType::Simple, n) == (0u32, 0u32, 0u32, 0u32),
        texture_rect(TileSetType::FullVariants, n) == (0u32, 0u32, 0u32, 0u32),
        texture_rect(TileSetType::Complex, n).0 == TILE_SIZE,
        texture_rect(TileSetType::Complex, n).1 == TILE_SIZE,
{
}

/// Whether a 9-entry pattern allows the neighbourhood `n` at position `i`.
spec fn allows(p: [u8; 9], n: [[bool; 3]; 3], i: int) -> bool {
    p@[i] == 2 || ((p@[i] == 1) == n@[i / 3]@[i % 3])
}

/// `fits` position by position.
proof fn lemma_fits_each(p: [u8; 9], n: [[bool; 3]; 3])
    ensures
        fits(p, n) == (allows(p, n, 0) && allows(p, n, 1) && allows(p, n, 2) && allows(p, n, 3) && allows(p, n, 5)
            && allows(p, n, 6) && allows(p, n, 7) && allows(p, n, 8)),
{
    if allows(p, n, 0) && allows(p, n, 1) && allows(p, n, 2) && allows(p, n, 3) && allows(p, n, 5) && allows(p, n, 6)
        && allows(p, n, 7) && allows(p, n, 8) {
        assert forall|i: int|
            0 <= i < 9 && i != 4 && p@[i] != 2 implies ((p@[i] == 1) == #[trigger] n@[i / 3]@[i % 3]) by {
            assert(allows(p, n, i));
        }
    }
    if fits(p, n) {
        assert forall|i: int| 0 <= i < 9 && i != 4 implies allows(p, n, i) by {
            if p@[i] != 2 {
                assert((p@[i] == 1) == n@[i / 3]@[i % 3]);
            }
        }
    }
}

/// In the 3 by 3 layout the piece taken shows the tile's open sides: its
/// column is the left one exactly when there is no neighbour to the left, the
/// right one exactly when there is none to the right (the middle one when both
/// are there), and its row likewise the top one exactly when there is no
/// neighbour above and the bottom one exactly when there is none below; every
/// piece is a 16 by 16 square.
pub proof fn lemma_complex_piece_shows_open_sides(n: [[bool; 3]; 3])
    requires
        first_fit(COMPLEX_RULES@, n, 0) is Some,
    ensures
        texture_rect(TileSetType::Complex, n).0 == 16,
        texture_rect(TileSetType::Complex, n).1 == 16,
        (texture_rect(TileSetType::Complex, n).2 == 0) == !n[1][0],
        (texture_rect(TileSetType::Complex, n).2 == 32) == !n[1][2],
        (texture_rect(TileSetType::Complex, n).2 == 16) == (n[1][0] && n[1][2]),
        (texture_rect(TileSetType::Complex, n).3 == 0) == !n[0][1],
        (texture_rect(TileSetType::Complex, n).3 == 32) == !n[2][1],
        (texture_rect(TileSetType::Complex, n).3 == 16) == (n[0][1] && n[2][1]),
{
    reveal_with_fuel(first_fit, 10);
    let r = COMPLEX_RULES@;
    assert(r[0] == ([2u8, 0, 2, 0, 0, 1, 2, 1, 2], 0u32, 0u32));
    assert(r[1] == ([2u8, 0, 2, 1, 0, 0, 2, 1, 2], 2u32, 0u32));
    assert(r[2] == ([2u8, 1, 2, 0, 0, 1, 2, 0, 2], 0u32, 2u32));
    assert(r[3] == ([2u8, 1, 2, 1, 0, 0, 2, 0, 2], 2u32, 2u32));
    assert(r[4] == ([2u8, 0, 2, 1, 0, 1, 2, 1, 2], 1u32, 0u32));
    assert(r[5] == ([2u8, 1, 2, 0, 0, 1, 0, 1, 2], 0u32, 1u32));
    assert(r[6] == ([2u8, 1, 2, 1, 0, 1, 2, 0, 2], 1u32, 2u32));
    assert(r[7] == ([2u8, 1, 2, 1, 0, 0, 2, 1, 2], 2u32, 1u32));
    assert(r[8] == ([2u8, 1, 2, 1, 0, 1, 2, 1, 2], 1u32, 1u32));
    lemma_fits_each(r[0].0, n);
    lemma_fits_each(r[1].0, n);
    lemma_fits_each(r[2].0, n);
    lemma_fits_each(r[3].0, n);
    lemma_fits_each(r[4].0, n);
    lemma_fits_each(r[5].0, n);
    lemma_fits_each(r[6].0, n);
    lemma_fits_each(r[7].0, n);
    lemma_fits_each(r[8].0, n);
    assert(n[1][0] == n@[1]@[0]);
    assert(n[1][2] == n@[1]@[2]);
    assert(n[0][1] == n@[0]@[1]);
    assert(n[2][1] == n@[2]@[1]);
}

} // verus!
