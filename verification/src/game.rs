//! The game's state, and how key presses and the player's health move it.
use vstd::prelude::*;

verus! {

/// What the game is doing.
#[derive(Clone, Copy, Debug, PartialEq, Eq, Structural)]
pub enum GameState {
    Running,
    Paused,
    GameOver,
    MainMenu,
}

/// The inputs the game reacts to.
#[derive(Clone, Copy, Debug, PartialEq, Eq, Structural)]
pub enum GameInput {
    /// The window is closed, or Escape is pressed.
    Quit,
    /// H: show or hide the hitboxes.
    ToggleHitboxes,
    /// P: pause or go on.
    Pause,
    /// R: start again after the game is over.
    Restart,
    /// T: show or hide the HUD.
    ToggleHud,
    /// A HUD button that sets the state.
    Button(GameState),
}

/// What the game loop does after an input.
#[derive(Clone, Copy, Debug, PartialEq, Eq, Structural)]
pub enum GameAction {
    /// Carry on.
    Continue,
    /// Leave the game loop.
    Stop,
    /// Carry on with the player brought back: full health, no key held.
    Revive,
}

/// How the player's own key presses are handled in a state.
#[derive(Clone, Copy, Debug, PartialEq, Eq, Structural)]
pub enum PlayerInput {
    /// Moved by them.
    Handle,
    /// Stopped, all keys forgotten.
    Reset,
    /// Not touched.
    Ignore,
}

/// The game's state and what is drawn.
#[derive(Clone, Copy, Debug, PartialEq, Eq, Structural)]
pub struct GameControl {
    pub state: GameState,
    pub draw_hitboxes: bool,
    pub draw_hud: bool,
}

/// The state after pressing P: running and paused swap, others stay.
pub open spec fn paused_toggle(s: GameState) -> GameState {
    match s {
        GameState::Running => GameState::Paused,
        GameState::Paused => GameState::Running,
        other => other,
    }
}

/// The control after `input`, and what the loop does.
pub open spec fn step_spec(c: GameControl, input: GameInput) -> (GameControl, GameAction) {
    match input {
        GameInput::Quit => (c, GameAction::Stop),
        GameInput::ToggleHitboxes => (GameControl { draw_hitboxes: !c.draw_hitboxes, ..c }, GameAction::Continue),
        GameInput::Pause => (GameControl { state: paused_toggle(c.state), ..c }, GameAction::Continue),
        GameInput::Restart => if c.state == GameState::GameOver {
            (GameControl { state: GameState::Running, ..c }, GameAction::Revive)
        } else {
            (c, GameAction::Continue)
        },
        GameInput::ToggleHud => (GameControl { draw_hud: !c.draw_hud, ..c }, GameAction::Continue),
        GameInput::Button(s) => (GameControl { state: s, ..c }, GameAction::Continue),
    }
}

impl GameControl {
    /// The game as it starts: running, hitboxes hidden, HUD shown.
    pub fn new() -> (c: GameControl)
        ensures
            c.state == GameState::Running,
            !c.draw_hitboxes,
            c.draw_hud,
    {
        GameControl { state: GameState::Running, draw_hitboxes: false, draw_hud: true }
    }

    /// Reacts to `input`.
    pub fn step(&mut self, input: GameInput) -> (action: GameAction)
        ensures
            (*final(self), action) == step_spec(*old(self), input),
    {
        match input {
            GameInput::Quit => GameAction::Stop,
            GameInput::ToggleHitboxes => {
                self.draw_hitboxes = !self.draw_hitboxes;
                GameAction::Continue
            },
            GameInput::Pause => {
                self.state = match self.state {
                    GameState::Paused => GameState::Running,
                    GameState::Running => GameState::Paused,
                    GameState::GameOver => GameState::GameOver,
                    GameState::MainMenu => GameState::MainMenu,
                };
                GameAction::Continue
            },
            GameInput::Restart => {
                if let GameState::GameOver = self.state {
                    self.state = GameState::Running;
                    GameAction::Revive
                } else {
                    GameAction::Continue
                }
            },
            GameInput::ToggleHud => {
                self.draw_hud = !self.draw_hud;
                GameAction::Continue
            },
            GameInput::Button(s) => {
                self.state = s;
                GameAction::Continue
            },
        }
    }

    /// After an update: a player with no health left ends the game; `true`
    /// when it ended just now (the player is then stopped).
    pub fn check_health(&mut self, health: i32) -> (ended: bool)
        ensures
            ended == (health <= 0 && old(self).state != GameState::GameOver),
            final(self).state == if ended {
                GameState::GameOver
            } else {
                old(self).state
            },
            final(self).draw_hitboxes == old(self).draw_hitboxes,
            final(self).draw_hud == old(self).draw_hud,
    {
        if health <= 0 {
            match self.state {
                GameState::GameOver => false,
                _ => {
                    self.state = GameState::GameOver;
                    true
                },
            }
        } else {
            false
        }
    }
}

/// How the player's key presses are handled in state `s`.
pub fn player_input(s: GameState) -> (mode: PlayerInput)
    ensures
        mode == match s {
            GameState::Running => PlayerInput::Handle,
            GameState::Paused => PlayerInput::Reset,
            _ => PlayerInput::Ignore,
        },
{
    match s {
        GameState::Running => PlayerInput::Handle,
        GameState::Paused => PlayerInput::Reset,
        GameState::GameOver => PlayerInput::Ignore,
        GameState::MainMenu => PlayerInput::Ignore,
    }
}

/// The world (enemies, the player, projectiles) moves only while running.
pub fn updates_world(s: GameState) -> (moves: bool)
    ensures
        moves == (s == GameState::Running),
{
    match s {
        GameState::Running => true,
        _ => false,
    }
}

/// The screen is dimmed while paused and after the game is over.
pub fn dims_screen(s: GameState) -> (dim: bool)
    ensures
        dim == (s == GameState::Paused || s == GameState::GameOver),
{
    match s {
        GameState::Paused | GameState::GameOver => true,
        _ => false,
    }
}

/// Pressing P twice leaves the game as it was.
pub proof fn lemma_pause_twice(c: GameControl)
    ensures
        step_spec(step_spec(c, GameInput::Pause).0, GameInput::Pause).0 == c,
{
}

/// Once the game is over, only R (back to running, the player revived), a
/// HUD button or quitting leave it over; P, H and T do not.
pub proof fn lemma_game_over_sticks(c: GameControl, input: GameInput)
    requires
        c.state == GameState::GameOver,
    ensures
        step_spec(c, input).0.state != GameState::GameOver ==> input == GameInput::Restart || input is Button,
        input == GameInput::Restart ==> step_spec(c, input) == (
            GameControl { state: GameState::Running, ..c },
            GameAction::Revive,
        ),
{
}

/// The id a player has until the server gives it one.
pub const NO_ID: u64 = 1_000_000;

/// A packet a client received, as far as the game's decisions look at it:
/// its kind and the player it is about.
#[derive(Clone, Copy, Debug, PartialEq, Eq, Structural)]
pub enum Received {
    /// The server gives this client an id.
    ClientId(u64),
    /// A player joined.
    Welcome(u64),
    /// A player moved.
    Position(u64),
    /// A player left.
    Disconnect(u64),
    /// A player's animations.
    Animation(u64),
    /// A player went to another level.
    Level(u64),
}

/// What the client does about a received packet.
#[derive(Clone, Copy, Debug, PartialEq, Eq, Structural)]
pub enum Reaction {
    /// Go by this id, and tell the others where the player is and on which level.
    Introduce(u64),
    /// Add the player with this id to the others.
    AddPlayer(u64),
    /// Take the new place or level of the known player with this id.
    UpdatePlayer(u64),
    /// Forget the player with this id.
    RemovePlayer(u64),
    /// Nothing.
    Ignore,
}

/// What a client whose own id is `my_id`, knowing the other players `known`,
/// does about `packet`: an id from the server is taken only while the client
/// has none; a player joining is added unless it is known already or is the
/// client itself; moves and level changes are taken for known players only;
/// a player leaving is forgotten; animations are ignored.
pub open spec fn reaction_to(my_id: u64, known: Seq<u64>, packet: Received) -> Reaction {
    match packet {
        Received::ClientId(id) => Reaction::Introduce(if my_id == NO_ID { id } else { my_id }),
        Received::Welcome(p) => if known.contains(p) || p == my_id {
            Reaction::Ignore
        } else {
            Reaction::AddPlayer(p)
        },
        Received::Position(p) | Received::Level(p) => if known.contains(p) {
            Reaction::UpdatePlayer(p)
        } else {
            Reaction::Ignore
        },
        Received::Disconnect(p) => Reaction::RemovePlayer(p),
        Received::Animation(_) => Reaction::Ignore,
    }
}

/// Whether `id` is among `known`.
fn knows(known: &Vec<u64>, id: u64) -> (found: bool)
    ensures
        found == known@.contains(id),
{
    let mut i: usize = 0;
    while i < known.len()
        invariant
            i <= known@.len(),
            forall|k: int| 0 <= k < i ==> known@[k] != id,
        decreases known@.len() - i,
    {
        if known[i] == id {
            assert(known@[i as int] == id);
            return true;
        }
        i = i + 1;
    }
    false
}

/// What the client does about a received packet (see `reaction_to`).
pub fn on_packet(my_id: u64, known: &Vec<u64>, packet: Received) -> (r: Reaction)
    ensures
        r == reaction_to(my_id, known@, packet),
{
    match packet {
        Received::ClientId(id) => Reaction::Introduce(if my_id == NO_ID { id } else { my_id }),
        Received::Welcome(p) => if knows(known, p) || p == my_id {
            Reaction::Ignore
        } else {
            Reaction::AddPlayer(p)
        },
        Received::Position(p) | Received::Level(p) => if knows(known, p) {
            Reaction::UpdatePlayer(p)
        } else {
            Reaction::Ignore
        },
        Received::Disconnect(p) => Reaction::RemovePlayer(p),
        Received::Animation(_) => Reaction::Ignore,
    }
}

/// A click shoots only when more than a quarter of a second passed since the
/// last shot, at `last_shot` (nanoseconds on the game's clock).
pub fn shot_allowed(last_shot: u128, now: u128) -> (allowed: bool)
    ensures
        allowed == (now - last_shot > 250_000_000),
{
    last_shot <= now && now - last_shot > 250_000_000
}

} // verus!
