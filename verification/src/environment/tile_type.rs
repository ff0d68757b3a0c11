//! The kinds of tile a level is made of, and the colour each is drawn in.
use vstd::prelude::*;

verus! {

/// An RGB colour.
pub type Rgb = (u8, u8, u8);

/// What the spec compares tiles by: the variant's index, and for an exit the
/// level it leads to and whether it is locked.
pub type TileKey = (int, Seq<char>, bool);

/// The kind of a tile.
#[derive(Debug, Clone, Eq, Hash)]
pub enum TileType {
    Grass,
    Water,
    Sand,
    Rock,
    Tree,
    Wall,
    Stone,
    Inventory,
    Swamp,
    Slime,
    Snow,
    Ice,
    Cactus,
    Cave,
    Lava,
    Exit(ExitTile),
}

/// An exit out of the level: the level it leads to, and whether it is locked.
#[derive(Debug, Clone, Eq, Hash)]
pub struct ExitTile {
    pub next_level: String,
    pub locked: bool,
}

pub const GRASS_COLOR: Rgb = (0, 255, 0);
pub const WATER_COLOR: Rgb = (0, 0, 255);
pub const SAND_COLOR: Rgb = (255, 255, 0);
pub const ROCK_COLOR: Rgb = (128, 128, 128);
pub const TREE_COLOR: Rgb = (34, 139, 34);
pub const STONE_COLOR: Rgb = (193, 193, 193);
pub const WALL_COLOR: Rgb = (50, 47, 77);
pub const PLAYER_SPAWN_COLOR: Rgb = (255, 0, 0);
pub const EXIT_COLOR: Rgb = (64, 58, 171);
pub const INVENTORY_COLOR: Rgb = (255, 0, 255);
pub const SWAMP_COLOR: Rgb = (0, 49, 31);
pub const SLIME_COLOR: Rgb = (74, 91, 33);
pub const SNOW_COLOR: Rgb = (255, 255, 255);
pub const ICE_COLOR: Rgb = (115, 155, 208);
pub const CAVE_COLOR: Rgb = (138, 68, 17);
pub const LAVA_COLOR: Rgb = (255, 102, 0);
pub const CACTUS_COLOR: Rgb = (96, 164, 79);

impl TileType {
    /// The tile as the spec compares it.
    pub open spec fn key(self) -> TileKey {
        match self {
            TileType::Grass => (0, Seq::empty(), false),
            TileType::Water => (1, Seq::empty(), false),
            TileType::Sand => (2, Seq::empty(), false),
            TileType::Rock => (3, Seq::empty(), false),
            TileType::Tree => (4, Seq::empty(), false),
            TileType::Wall => (5, Seq::empty(), false),
            TileType::Stone => (6, Seq::empty(), false),
            TileType::Inventory => (7, Seq::empty(), false),
            TileType::Swamp => (8, Seq::empty(), false),
            TileType::Slime => (9, Seq::empty(), false),
            TileType::Snow => (10, Seq::empty(), false),
            TileType::Ice => (11, Seq::empty(), false),
            TileType::Cactus => (12, Seq::empty(), false),
            TileType::Cave => (13, Seq::empty(), false),
            TileType::Lava => (14, Seq::empty(), false),
            TileType::Exit(e) => (15, e.next_level@, e.locked),
        }
    }

    /// The colour a tile of this kind is drawn in.
    pub open spec fn color_of(self) -> Rgb {
        match self {
            TileType::Grass => GRASS_COLOR,
            TileType::Water => WATER_COLOR,
            TileType::Sand => SAND_COLOR,
            TileType::Rock => ROCK_COLOR,
            TileType::Tree => TREE_COLOR,
            TileType::Stone => STONE_COLOR,
            TileType::Wall => WALL_COLOR,
            TileType::Inventory => INVENTORY_COLOR,
            TileType::Swamp => SWAMP_COLOR,
            TileType::Slime => SLIME_COLOR,
            TileType::Snow => SNOW_COLOR,
            TileType::Ice => ICE_COLOR,
            TileType::Cave => CAVE_COLOR,
            TileType::Lava => LAVA_COLOR,
            TileType::Cactus => CACTUS_COLOR,
            TileType::Exit(..) => EXIT_COLOR,
        }
    }

    /// The colour a tile of this kind is drawn in.
    pub fn _get_color(&self) -> (color: Rgb)
        ensures
            color == self.color_of(),
    {
        match self {
            TileType::Grass => GRASS_COLOR,
            TileType::Water => WATER_COLOR,
            TileType::Sand => SAND_COLOR,
            TileType::Rock => ROCK_COLOR,
            TileType::Tree => TREE_COLOR,
            TileType::Stone => STONE_COLOR,
            TileType::Wall => WALL_COLOR,
            TileType::Inventory => INVENTORY_COLOR,
            TileType::Swamp => SWAMP_COLOR,
            TileType::Slime => SLIME_COLOR,
            TileType::Snow => SNOW_COLOR,
            TileType::Ice => ICE_COLOR,
            TileType::Cave => CAVE_COLOR,
            TileType::Lava => LAVA_COLOR,
            TileType::Cactus => CACTUS_COLOR,
            TileType::Exit(..) => EXIT_COLOR,
        }
    }

    /// Whether two tiles are of the same kind, exits also leading to the same
    /// level with the same lock.
    pub fn same_as(&self, other: &TileType) -> (same: bool)
        ensures
            same == (self.key() == other.key()),
    {
        match (self, other) {
            (TileType::Exit(a), TileType::Exit(b)) => {
                let same_level = a.next_level == b.next_level;
                same_level && a.locked == b.locked
            },
            (TileType::Exit(_), _) => false,
            (_, TileType::Exit(_)) => false,
            _ => self.index() == other.index(),
        }
    }

    /// The position of the variant in the declaration.
    fn index(&self) -> (i: u8)
        ensures
            i as int == self.key().0,
    {
        match self {
            TileType::Grass => 0,
            TileType::Water => 1,
            TileType::Sand => 2,
            TileType::Rock => 3,
            TileType::Tree => 4,
            TileType::Wall => 5,
            TileType::Stone => 6,
            TileType::Inventory => 7,
            TileType::Swamp => 8,
            TileType::Slime => 9,
            TileType::Snow => 10,
            TileType::Ice => 11,
            TileType::Cactus => 12,
            TileType::Cave => 13,
            TileType::Lava => 14,
            TileType::Exit(..) => 15,
        }
    }

    /// A copy of the tile.
    pub fn duplicate(&self) -> (copy: TileType)
        ensures
            copy == *self,
    {
        match self {
            TileType::Grass => TileType::Grass,
            TileType::Water => TileType::Water,
            TileType::Sand => TileType::Sand,
            TileType::Rock => TileType::Rock,
            TileType::Tree => TileType::Tree,
            TileType::Wall => TileType::Wall,
            TileType::Stone => TileType::Stone,
            TileType::Inventory => TileType::Inventory,
            TileType::Swamp => TileType::Swamp,
            TileType::Slime => TileType::Slime,
            TileType::Snow => TileType::Snow,
            TileType::Ice => TileType::Ice,
            TileType::Cactus => TileType::Cactus,
            TileType::Cave => TileType::Cave,
            TileType::Lava => TileType::Lava,
            TileType::Exit(e) => TileType::Exit(ExitTile { next_level: e.next_level.clone(), locked: e.locked }),
        }
    }
}

impl PartialEq for TileType {
    fn eq(&self, other: &Self) -> (same: bool) {
        self.same_as(other)
    }
}

impl vstd::std_specs::cmp::PartialEqSpecImpl for TileType {
    open spec fn obeys_eq_spec() -> bool {
        true
    }

    open spec fn eq_spec(&self, other: &TileType) -> bool {
        self.key() == other.key()
    }
}

impl PartialEq for ExitTile {
    fn eq(&self, other: &Self) -> (same: bool) {
        let same_level = self.next_level == other.next_level;
        same_level && self.locked == other.locked
    }
}

impl vstd::std_specs::cmp::PartialEqSpecImpl for ExitTile {
    open spec fn obeys_eq_spec() -> bool {
        true
    }

    open spec fn eq_spec(&self, other: &ExitTile) -> bool {
        self.next_level@ == other.next_level@ && self.locked == other.locked
    }
}

} // verus!
