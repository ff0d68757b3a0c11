//! The player's controls, health and exits, apart from motion in pixels.
use vstd::prelude::*;
use crate::entities::animation::AnimationState;
use crate::environment::tile_type::{ExitTile, TileType};

verus! {

/// Whether the player can be hurt now.
#[derive(Clone, Copy, Debug, PartialEq, Eq, Structural)]
pub enum PlayerHitState {
    Invincible,
    Vulnerable,
}

/// A movement key.
#[derive(Clone, Copy, Debug, PartialEq, Eq, Structural)]
pub enum MoveKey {
    Up,
    Down,
    Left,
    Right,
}

/// The movement keys held, and the direction the player moves along each axis
/// (-1, 0 or 1; down and right positive).
#[derive(Clone, Copy, Debug, PartialEq, Eq, Structural)]
pub struct MoveKeys {
    pub pressed_up: bool,
    pub pressed_down: bool,
    pub pressed_left: bool,
    pub pressed_right: bool,
    pub dir_x: i8,
    pub dir_y: i8,
}

impl MoveKeys {
    /// No key held, standing still.
    pub fn new() -> (keys: MoveKeys)
        ensures
            keys == MoveKeys::still(),
    {
        MoveKeys { pressed_up: false, pressed_down: false, pressed_left: false, pressed_right: false, dir_x: 0, dir_y: 0 }
    }

    /// No key held, standing still.
    pub open spec fn still() -> MoveKeys {
        MoveKeys { pressed_up: false, pressed_down: false, pressed_left: false, pressed_right: false, dir_x: 0, dir_y: 0 }
    }

    /// A key goes down: the player moves its way along its axis.
    pub fn key_down(&mut self, key: MoveKey)
        ensures
            *final(self) == match key {
                MoveKey::Up => MoveKeys { pressed_up: true, dir_y: -1i8, ..*old(self) },
                MoveKey::Down => MoveKeys { pressed_down: true, dir_y: 1i8, ..*old(self) },
                MoveKey::Left => MoveKeys { pressed_left: true, dir_x: -1i8, ..*old(self) },
                MoveKey::Right => MoveKeys { pressed_right: true, dir_x: 1i8, ..*old(self) },
            },
    {
        match key {
            MoveKey::Up => {
                self.dir_y = -1;
                self.pressed_up = true;
            },
            MoveKey::Down => {
                self.dir_y = 1;
                self.pressed_down = true;
            },
            MoveKey::Left => {
                self.dir_x = -1;
                self.pressed_left = true;
            },
            MoveKey::Right => {
                self.dir_x = 1;
                self.pressed_right = true;
            },
        }
    }

    /// A key comes up: along its axis the player moves toward the opposite key
    /// if that is still held, else stops.
    pub fn key_up(&mut self, key: MoveKey)
        ensures
            *final(self) == match key {
                MoveKey::Up => MoveKeys {
                    pressed_up: false,
                    dir_y: if old(self).pressed_down { 1i8 } else { 0i8 },
                    ..*old(self)
                },
                MoveKey::Down => MoveKeys {
                    pressed_down: false,
                    dir_y: if old(self).pressed_up { -1i8 } else { 0i8 },
                    ..*old(self)
                },
                MoveKey::Left => MoveKeys {
                    pressed_left: false,
                    dir_x: if old(self).pressed_right { 1i8 } else { 0i8 },
                    ..*old(self)
                },
                MoveKey::Right => MoveKeys {
                    pressed_right: false,
                    dir_x: if old(self).pressed_left { -1i8 } else { 0i8 },
                    ..*old(self)
                },
            },
    {
        match key {
            MoveKey::Up => {
                self.pressed_up = false;
                self.dir_y = if self.pressed_down {
                    1
                } else {
                    0
                };
            },
            MoveKey::Down => {
                self.pressed_down = false;
                self.dir_y = if self.pressed_up {
                    -1
                } else {
                    0
                };
            },
            MoveKey::Left => {
                self.pressed_left = false;
                self.dir_x = if self.pressed_right {
                    1
                } else {
                    0
                };
            },
            MoveKey::Right => {
                self.pressed_right = false;
                self.dir_x = if self.pressed_left {
                    -1
                } else {
                    0
                };
            },
        }
    }

    /// Forgets every key and stops.
    pub fn reset_velocity(&mut self)
        ensures
            *final(self) == MoveKeys::still(),
    {
        *self = MoveKeys::new();
    }
}

/// Pressing and releasing one key, with nothing else held, leaves the player
/// standing still with no key held.
pub proof fn lemma_press_release(k: MoveKey, pressed: MoveKeys, released: MoveKeys)
    requires
        pressed == match k {
            MoveKey::Up => MoveKeys { pressed_up: true, dir_y: -1i8, ..MoveKeys::still() },
            MoveKey::Down => MoveKeys { pressed_down: true, dir_y: 1i8, ..MoveKeys::still() },
            MoveKey::Left => MoveKeys { pressed_left: true, dir_x: -1i8, ..MoveKeys::still() },
            MoveKey::Right => MoveKeys { pressed_right: true, dir_x: 1i8, ..MoveKeys::still() },
        },
        released == match k {
            MoveKey::Up => MoveKeys { pressed_up: false, dir_y: if pressed.pressed_down { 1i8 } else { 0i8 }, ..pressed },
            MoveKey::Down => MoveKeys { pressed_down: false, dir_y: if pressed.pressed_up { -1i8 } else { 0i8 }, ..pressed },
            MoveKey::Left => MoveKeys { pressed_left: false, dir_x: if pressed.pressed_right { 1i8 } else { 0i8 }, ..pressed },
            MoveKey::Right => MoveKeys { pressed_right: false, dir_x: if pressed.pressed_left { -1i8 } else { 0i8 }, ..pressed },
        },
    ensures
        released == MoveKeys::still(),
{
}

/// The animation of a player moving along `(dir_x, dir_y)`: sideways wins
/// over up and down; `None` when standing.
pub fn facing(dir_x: i8, dir_y: i8) -> (state: Option<AnimationState>)
    ensures
        state == if dir_x > 0 {
            Some(AnimationState::Right)
        } else if dir_x < 0 {
            Some(AnimationState::Left)
        } else if dir_y > 0 {
            Some(AnimationState::Front)
        } else if dir_y < 0 {
            Some(AnimationState::Back)
        } else {
            None
        },
{
    if dir_x > 0 {
        Some(AnimationState::Right)
    } else if dir_x < 0 {
        Some(AnimationState::Left)
    } else if dir_y > 0 {
        Some(AnimationState::Front)
    } else if dir_y < 0 {
        Some(AnimationState::Back)
    } else {
        None
    }
}

/// Full health.
pub const MAX_HEALTH: i32 = 100;
/// The health an enemy's touch takes.
pub const HIT_DAMAGE: i32 = 15;
/// The health a heal gives back.
pub const HEAL_AMOUNT: i32 = 10;

/// An enemy touches the player: a vulnerable player loses `HIT_DAMAGE` and
/// turns invincible (`true`: the hit counts, its time is to be noted); an
/// invincible one is not hurt.
pub fn enemy_touch(state: PlayerHitState, health: i32) -> (after: (PlayerHitState, i32, bool))
    requires
        health >= i32::MIN + HIT_DAMAGE,
    ensures
        after == match state {
            PlayerHitState::Vulnerable => (PlayerHitState::Invincible, (health - HIT_DAMAGE) as i32, true),
            PlayerHitState::Invincible => (PlayerHitState::Invincible, health, false),
        },
{
    match state {
        PlayerHitState::Vulnerable => (PlayerHitState::Invincible, health - HIT_DAMAGE, true),
        PlayerHitState::Invincible => (PlayerHitState::Invincible, health, false),
    }
}

/// A heal, due when the player was neither hit nor healed for a while: below
/// full health the player gains `HEAL_AMOUNT`, never above full (`true`: a heal
/// happened, its time is to be noted); at full health nothing happens.
pub fn heal(health: i32) -> (after: (i32, bool))
    ensures
        after == if health < MAX_HEALTH {
            (if health + HEAL_AMOUNT < MAX_HEALTH { (health + HEAL_AMOUNT) as i32 } else { MAX_HEALTH }, true)
        } else {
            (health, false)
        },
{
    if health < MAX_HEALTH {
        let healed = health + HEAL_AMOUNT;
        (if healed < MAX_HEALTH {
            healed
        } else {
            MAX_HEALTH
        }, true)
    } else {
        (health, false)
    }
}

/// Healing never takes health above full, and never lowers it.
pub proof fn lemma_heal_bounded(health: i32, after: (i32, bool))
    requires
        after == if health < MAX_HEALTH {
            (if health + HEAL_AMOUNT < MAX_HEALTH { (health + HEAL_AMOUNT) as i32 } else { MAX_HEALTH }, true)
        } else {
            (health, false)
        },
    ensures
        health <= after.0,
        health <= MAX_HEALTH ==> after.0 <= MAX_HEALTH,
{
}

/// The exit the player stands on after touching `touched`, in order: each
/// exit touched replaces what was reached, an unlocked one with itself, a
/// locked one with nothing; other tiles change nothing.
pub open spec fn reached_after(touched: Seq<TileType>, reached: Option<(Seq<char>, bool)>) -> Option<(Seq<char>, bool)>
    decreases touched.len(),
{
    if touched.len() == 0 {
        reached
    } else {
        let before = reached_after(touched.drop_last(), reached);
        match touched.last() {
            TileType::Exit(e) => if e.locked {
                None
            } else {
                Some((e.next_level@, e.locked))
            },
            _ => before,
        }
    }
}

/// An exit as the spec compares it: where it leads and whether it is locked.
pub open spec fn exit_view(e: Option<ExitTile>) -> Option<(Seq<char>, bool)> {
    match e {
        Some(x) => Some((x.next_level@, x.locked)),
        None => None,
    }
}

/// The exit the player reached after touching the tiles `touched`, starting
/// from `reached`.
pub fn reached_exit(touched: &Vec<TileType>, reached: Option<ExitTile>) -> (result: Option<ExitTile>)
    ensures
        match (result, reached_after(touched@, exit_view(reached))) {
            (Some(r), Some((name, locked))) => r.next_level@ == name && r.locked == locked,
            (None, None) => true,
            _ => false,
        },
{
    let ghost init = exit_view(reached);
    let mut result = reached;
    let mut i: usize = 0;
    while i < touched.len()
        invariant
            i <= touched@.len(),
            match (result, reached_after(touched@.take(i as int), init)) {
                (Some(r), Some((name, locked))) => r.next_level@ == name && r.locked == locked,
                (None, None) => true,
                _ => false,
            },
        decreases touched@.len() - i,
    {
        assert(touched@.take(i as int + 1).drop_last() =~= touched@.take(i as int));
        if let TileType::Exit(inner) = &touched[i] {
            if inner.locked {
                result = None;
            } else {
                result = Some(ExitTile { next_level: inner.next_level.clone(), locked: inner.locked });
            }
        }
        i = i + 1;
    }
    assert(touched@.take(touched@.len() as int) =~= touched@);
    result
}

/// Nanoseconds in a second.
pub const SECOND_NANOS: u128 = 1_000_000_000;

/// More than `span` nanoseconds passed from moment `since` to moment `now`
/// (none, when `now` is before `since`).
pub fn passed_more_than(since: u128, now: u128, span: u128) -> (more: bool)
    ensures
        more == (now - since > span),
{
    since <= now && now - since > span
}

/// At least `span` nanoseconds passed from moment `since` to moment `now`.
pub fn passed_at_least(since: u128, now: u128, span: u128) -> (enough: bool)
    ensures
        enough == (now - since >= span),
{
    since <= now && now - since >= span
}

/// A hit player is invincible for a second: at moment `now` (nanoseconds on
/// the game's clock) it becomes vulnerable again once more than a second has
/// passed since the hit at `last_hit`.
pub fn invincibility_over(last_hit: u128, now: u128) -> (over: bool)
    ensures
        over == (now - last_hit > SECOND_NANOS),
{
    passed_more_than(last_hit, now, SECOND_NANOS)
}

/// A heal is due at moment `now` when at least three seconds passed since the
/// last hit and since the last heal.
pub fn heal_due(last_hit: u128, last_heal: u128, now: u128) -> (due: bool)
    ensures
        due == (now - last_hit >= 3 * SECOND_NANOS && now - last_heal >= 3 * SECOND_NANOS),
{
    passed_at_least(last_hit, now, 3 * SECOND_NANOS) && passed_at_least(last_heal, now, 3 * SECOND_NANOS)
}

/// A player standing still turns idle once more than five seconds passed
/// since it last moved, at `last_moved`.
pub fn idle_due(last_moved: u128, now: u128) -> (idle: bool)
    ensures
        idle == (now - last_moved > 5 * SECOND_NANOS),
{
    passed_more_than(last_moved, now, 5 * SECOND_NANOS)
}

} // verus!
