//! Enemies: their kinds, how many a level has, where they appear, and how they
//! look while they move.
use vstd::prelude::*;
use crate::entities::animation::AnimationState;
use crate::entities::player::{passed_more_than, SECOND_NANOS};
use crate::random::random_range_i32;
use crate::wfc::overlap::TileGrid;

verus! {

/// The kinds of enemy.
#[derive(Clone, Copy, Debug, PartialEq, Eq, Structural)]
pub enum EnemyType {
    Slime,
    Stonewalker,
    Wizard,
    Skull,
    Placeholder,
}

/// The number of enemies on level `i`: one, and from level 3 on one more for
/// each started run of four levels.
pub open spec fn enemy_count(i: int) -> int {
    if i >= 3 {
        1 + (i - 3) / 4 + 1
    } else {
        1
    }
}

/// The number of enemies on the level with index `i`.
pub fn enemy_count_for_level(i: i32) -> (n: usize)
    ensures
        n == enemy_count(i as int),
{
    let mut n: usize = 1;
    if i >= 3 {
        let div = (i - 3) / 4;
        n = n + div as usize + 1;
    }
    n
}

/// The kind of enemy for a roll of `j`: 1 to 4 give the four kinds, anything
/// else the placeholder.
pub open spec fn enemy_for_roll(j: int) -> EnemyType {
    if j == 1 {
        EnemyType::Slime
    } else if j == 2 {
        EnemyType::Stonewalker
    } else if j == 3 {
        EnemyType::Wizard
    } else if j == 4 {
        EnemyType::Skull
    } else {
        EnemyType::Placeholder
    }
}

/// One of the four real kinds of enemy, picked at random.
pub fn pick_random_enemy_type() -> (kind: EnemyType)
    ensures
        exists|j: int| 1 <= j <= 4 && kind == enemy_for_roll(j),
        kind != EnemyType::Placeholder,
{
    let j = random_range_i32(1, 5);
    let kind = match j {
        1 => EnemyType::Slime,
        2 => EnemyType::Stonewalker,
        3 => EnemyType::Wizard,
        4 => EnemyType::Skull,
        _ => EnemyType::Placeholder,
    };
    assert(kind == enemy_for_roll(j as int));
    kind
}

/// How large an enemy of kind `kind` is drawn, in pixels.
pub fn enemy_size(kind: EnemyType) -> (size: (u32, u32))
    ensures
        size == match kind {
            EnemyType::Wizard => (64u32, 128u32),
            EnemyType::Skull => (64u32, 64u32),
            _ => (50u32, 50u32),
        },
{
    match kind {
        EnemyType::Wizard => (64, 128),
        EnemyType::Skull => (64, 64),
        _ => (50, 50),
    }
}

/// The size of an enemy's hitbox: its drawn size less a tenth, rounded down.
pub fn enemy_hitbox_size(kind: EnemyType) -> (size: (u32, u32))
    ensures
        size.0 == enemy_size_spec(kind).0 - enemy_size_spec(kind).0 / 10,
        size.1 == enemy_size_spec(kind).1 - enemy_size_spec(kind).1 / 10,
{
    let (w, h) = enemy_size(kind);
    (w - w / 10, h - h / 10)
}

/// How large an enemy of kind `kind` is drawn.
pub open spec fn enemy_size_spec(kind: EnemyType) -> (u32, u32) {
    match kind {
        EnemyType::Wizard => (64u32, 128u32),
        EnemyType::Skull => (64u32, 64u32),
        _ => (50u32, 50u32),
    }
}

/// How far above its feet' tile an enemy of kind `kind` is drawn, in pixels;
/// `None` for the placeholder, which is never placed.
pub open spec fn spawn_offset(kind: EnemyType) -> Option<int> {
    match kind {
        EnemyType::Slime | EnemyType::Stonewalker => Some(-16),
        EnemyType::Wizard => Some(-64),
        EnemyType::Skull => Some(-32),
        EnemyType::Placeholder => None,
    }
}

/// Tile `(x, y)` is walkable and at least three steps (along the axes) from
/// the player's spawn tile.
pub open spec fn spawn_spot(grid: TileGrid, x: int, y: int, player: (i32, i32)) -> bool {
    &&& grid.walkable_at((x, y))
    &&& abs_int(x - player.0) + abs_int(y - player.1) >= 3
}

pub open spec fn abs_int(v: int) -> int {
    if v < 0 {
        -v
    } else {
        v
    }
}

/// Where an enemy of kind `kind` appears on a level of tiles `tile_size`
/// pixels wide: a walkable tile at least three steps from the player's spawn
/// tile `player`, picked at random, in pixels, raised by the kind's offset.
/// `None` when no tile is far enough, or for the placeholder.
pub fn enemy_spawn_pt(kind: EnemyType, grid: &TileGrid, player: (i32, i32), tile_size: i32) -> (spot: Option<(i32, i32)>)
    requires
        grid.wf(),
        tile_size >= 0,
        grid.width * tile_size <= i32::MAX,
        grid.height * tile_size <= i32::MAX,
        grid.width <= i32::MAX,
        grid.height <= i32::MAX,
    ensures
        spot is None <==> spawn_offset(kind) is None || forall|x: int, y: int| !#[trigger] spawn_spot(*grid, x, y, player),
        spot is None <==> spawn_offset(kind) is None || forall|x: int, y: int|
            #[trigger] grid.walkable_at((x, y)) ==> !far_from_player(x, y, player),
        spot matches Some((px, py)) ==> exists|x: int, y: int|
            #[trigger] spawn_spot(*grid, x, y, player) && px == x * tile_size && py == y * tile_size + spawn_offset(
                kind,
            )->0,
{
    let offset: i32 = match kind {
        EnemyType::Slime | EnemyType::Stonewalker => -16,
        EnemyType::Wizard => -64,
        EnemyType::Skull => -32,
        EnemyType::Placeholder => {
            return None;
        },
    };
    let mut spots: Vec<(usize, usize)> = Vec::new();
    let mut y: usize = 0;
    while y < grid.height
        invariant
            grid.wf(),
            grid.width <= i32::MAX,
            grid.height <= i32::MAX,
            y <= grid.height,
            forall|k: int|
                0 <= k < spots@.len() ==> #[trigger] spawn_spot(*grid, spots@[k].0 as int, spots@[k].1 as int, player),
            forall|xx: int, yy: int| #[trigger] spawn_spot(*grid, xx, yy, player) && yy < y ==> spots@.len() > 0,
        decreases grid.height - y,
    {
        let mut x: usize = 0;
        while x < grid.width
            invariant
                grid.wf(),
                grid.width <= i32::MAX,
                grid.height <= i32::MAX,
                y < grid.height,
                x <= grid.width,
                forall|k: int|
                    0 <= k < spots@.len() ==> #[trigger] spawn_spot(*grid, spots@[k].0 as int, spots@[k].1 as int, player),
                forall|xx: int, yy: int|
                    #[trigger] spawn_spot(*grid, xx, yy, player) && (yy < y || (yy == y && xx < x)) ==> spots@.len() > 0,
            decreases grid.width - x,
        {
            if grid.tiles[y][x][3] < 128 {
                let dx: i64 = x as i64 - player.0 as i64;
                let dy: i64 = y as i64 - player.1 as i64;
                let adx: i64 = if dx < 0 {
                    -dx
                } else {
                    dx
                };
                let ady: i64 = if dy < 0 {
                    -dy
                } else {
                    dy
                };
                if adx + ady >= 3 {
                    let ghost before = spots@;
                    spots.push((x, y));
                    proof {
                        assert forall|k: int|
                            0 <= k < spots@.len() implies #[trigger] spawn_spot(
                                *grid,
                                spots@[k].0 as int,
                                spots@[k].1 as int,
                                player,
                            ) by {
                            if k < before.len() {
                                assert(spots@[k] == before[k]);
                            }
                        }
                    }
                }
            }
            x = x + 1;
        }
        y = y + 1;
    }
    proof {
        assert forall|x: int, y: int| #[trigger] spawn_spot(*grid, x, y, player) <==> (grid.walkable_at((x, y))
            && far_from_player(x, y, player)) by {
            lemma_spawn_spot_any_side(*grid, x, y, player);
        }
        if forall|x: int, y: int| !#[trigger] spawn_spot(*grid, x, y, player) {
            assert forall|x: int, y: int| #[trigger] grid.walkable_at((x, y)) implies !far_from_player(x, y, player) by {
                assert(!spawn_spot(*grid, x, y, player));
            }
        }
        if forall|x: int, y: int| #[trigger] grid.walkable_at((x, y)) ==> !far_from_player(x, y, player) {
            assert forall|x: int, y: int| !#[trigger] spawn_spot(*grid, x, y, player) by {
                if spawn_spot(*grid, x, y, player) {
                    assert(grid.walkable_at((x, y)));
                }
            }
        }
    }
    match crate::random::pick(&spots) {
        Some(p) => {
            let (x, y) = *p;
            let ghost k = choose|k: int| 0 <= k < spots@.len() && spots@[k] == (x, y);
            assert(spawn_spot(*grid, spots@[k].0 as int, spots@[k].1 as int, player));
            proof {
                assert((x as int) * (tile_size as int) <= (grid.width as int) * (tile_size as int)) by (nonlinear_arith)
                    requires
                        x < grid.width,
                        tile_size >= 0,
                ;
                assert((y as int) * (tile_size as int) <= (grid.height as int) * (tile_size as int)) by (nonlinear_arith)
                    requires
                        y < grid.height,
                        tile_size >= 0,
                ;
            }
            Some((x as i32 * tile_size, y as i32 * tile_size + offset))
        },
        None => None,
    }
}
/// `spot` is where an enemy of kind `kind` is drawn when it stands on a spawn
/// tile: the tile's corner in pixels, raised by the kind's offset.
pub open spec fn spawn_place(kind: EnemyType, grid: TileGrid, player: (i32, i32), tile_size: int, spot: (i32, i32)) -> bool {
    exists|x: int, y: int|
        #[trigger] spawn_spot(grid, x, y, player) && spot.0 == x * tile_size && spot.1 == y * tile_size + spawn_offset(
            kind,
        )->0
}

/// The enemies of the level with index `level_index`: as many as
/// `enemy_count` gives, each of a kind picked at random, with where it appears
/// (as `enemy_spawn_pt` gives it; `None` when no tile is far enough from the
/// player's spawn tile `player`).
pub fn plan_enemies(level_index: i32, grid: &TileGrid, player: (i32, i32), tile_size: i32) -> (plan: Vec<(EnemyType, Option<(i32, i32)>)>)
    requires
        grid.wf(),
        tile_size >= 0,
        grid.width * tile_size <= i32::MAX,
        grid.height * tile_size <= i32::MAX,
        grid.width <= i32::MAX,
        grid.height <= i32::MAX,
    ensures
        plan@.len() == enemy_count(level_index as int),
        forall|k: int|
            0 <= k < plan@.len() ==> {
                let (kind, spot) = #[trigger] plan@[k];
                &&& kind != EnemyType::Placeholder
                &&& spot is None <==> forall|x: int, y: int| !#[trigger] spawn_spot(*grid, x, y, player)
                &&& spot matches Some(s) ==> spawn_place(kind, *grid, player, tile_size as int, s)
            },
{
    let n = enemy_count_for_level(level_index);
    let mut plan: Vec<(EnemyType, Option<(i32, i32)>)> = Vec::new();
    let mut k: usize = 0;
    while k < n
        invariant
            grid.wf(),
            tile_size >= 0,
            grid.width * tile_size <= i32::MAX,
            grid.height * tile_size <= i32::MAX,
            grid.width <= i32::MAX,
            grid.height <= i32::MAX,
            k <= n,
            plan@.len() == k,
            forall|j: int|
                0 <= j < plan@.len() ==> {
                    let (kind, spot) = #[trigger] plan@[j];
                    &&& kind != EnemyType::Placeholder
                    &&& spot is None <==> forall|x: int, y: int| !#[trigger] spawn_spot(*grid, x, y, player)
                    &&& spot matches Some(s) ==> spawn_place(kind, *grid, player, tile_size as int, s)
                },
        decreases n - k,
    {
        let kind = pick_random_enemy_type();
        let spot = enemy_spawn_pt(kind, grid, player, tile_size);
        plan.push((kind, spot));
        k = k + 1;
    }
    plan
}


/// The animation an enemy of kind `kind` shows while it moves in direction
/// `dir` (0 up, 1 right, 2 down, 3 left, else standing): `None` where it keeps
/// the one it has.
pub open spec fn enemy_animation_spec(kind: EnemyType, dir: int) -> Option<AnimationState> {
    if 0 <= dir <= 3 {
        match kind {
            EnemyType::Slime | EnemyType::Stonewalker => Some(AnimationState::Front),
            EnemyType::Wizard | EnemyType::Skull => Some(
                if dir == 0 {
                    AnimationState::Back
                } else if dir == 1 {
                    AnimationState::Right
                } else if dir == 2 {
                    AnimationState::Front
                } else {
                    AnimationState::Left
                },
            ),
            EnemyType::Placeholder => None,
        }
    } else {
        Some(AnimationState::Default)
    }
}

/// The animation an enemy of kind `kind` shows while it moves in direction `dir`.
pub fn enemy_animation(kind: EnemyType, dir: i32) -> (state: Option<AnimationState>)
    ensures
        state == enemy_animation_spec(kind, dir as int),
{
    if dir < 0 || dir > 3 {
        return Some(AnimationState::Default);
    }
    match kind {
        EnemyType::Slime | EnemyType::Stonewalker => Some(AnimationState::Front),
        EnemyType::Wizard | EnemyType::Skull => Some(
            if dir == 0 {
                AnimationState::Back
            } else if dir == 1 {
                AnimationState::Right
            } else if dir == 2 {
                AnimationState::Front
            } else {
                AnimationState::Left
            },
        ),
        EnemyType::Placeholder => None,
    }
}

/// The unit step of direction `dir` (0 up, 1 right, 2 down, 3 left), screen
/// coordinates growing down; no step for any other value.
pub fn direction_step(dir: i32) -> (step: (i32, i32))
    ensures
        step == if dir == 0 {
            (0i32, -1i32)
        } else if dir == 1 {
            (1i32, 0i32)
        } else if dir == 2 {
            (0i32, 1i32)
        } else if dir == 3 {
            (-1i32, 0i32)
        } else {
            (0i32, 0i32)
        },
{
    if dir == 0 {
        (0, -1)
    } else if dir == 1 {
        (1, 0)
    } else if dir == 2 {
        (0, 1)
    } else if dir == 3 {
        (-1, 0)
    } else {
        (0, 0)
    }
}

/// More levels never mean fewer enemies.
pub proof fn lemma_enemy_count_monotone(i: int, j: int)
    requires
        i <= j,
    ensures
        1 <= enemy_count(i) <= enemy_count(j),
{
    if i >= 3 {
        assert((i - 3) / 4 <= (j - 3) / 4) by (nonlinear_arith)
            requires
                3 <= i <= j,
        ;
    }
}

/// An enemy looks for the way to the player again once more than half a
/// second passed since it last did, at `last_time` (nanoseconds on the game's
/// clock).
pub fn reroute_due(last_time: u128, now: u128) -> (due: bool)
    ensures
        due == (now - last_time > SECOND_NANOS / 2),
{
    passed_more_than(last_time, now, SECOND_NANOS / 2)
}

/// The tiles at least three steps (along the axes) from the player's tile, on
/// whichever side of it they lie: the most any of the four ways of adding up
/// the two offsets with signs gives is the Manhattan distance.
pub open spec fn far_from_player(x: int, y: int, player: (i32, i32)) -> bool {
    ||| (x - player.0) + (y - player.1) >= 3
    ||| (player.0 - x) + (y - player.1) >= 3
    ||| (x - player.0) + (player.1 - y) >= 3
    ||| (player.0 - x) + (player.1 - y) >= 3
}

/// A tile is a spawn spot exactly when it is walkable and at least three steps
/// from the player's tile, whether it lies above, below, left or right of it.
pub proof fn lemma_spawn_spot_any_side(grid: TileGrid, x: int, y: int, player: (i32, i32))
    ensures
        spawn_spot(grid, x, y, player) == (grid.walkable_at((x, y)) && far_from_player(x, y, player)),
{
}

} // verus!
