//! Data structures that are shared between the server and the client.
use vstd::prelude::*;
use vstd::std_specs::convert::{FromSpecImpl, IntoSpec};
use crate::common::{Scalar, Vec2};

verus! {

/// A unit identifier.
#[derive(Clone, Copy, Debug, PartialEq, Eq, Hash, Structural)]
pub struct UnitId(pub u32);

/// A client/player identifier.
#[derive(Clone, Copy, Debug, PartialEq, Eq, Hash, Structural)]
pub struct ClientId(pub u32);

impl From<u32> for UnitId {
    fn from(id: u32) -> (unit_id: UnitId) {
        UnitId(id)
    }
}

impl FromSpecImpl<u32> for UnitId {
    open spec fn obeys_from_spec() -> bool {
        true
    }

    open spec fn from_spec(id: u32) -> UnitId {
        UnitId(id)
    }
}

impl From<u32> for ClientId {
    fn from(id: u32) -> (client_id: ClientId) {
        ClientId(id)
    }
}

impl FromSpecImpl<u32> for ClientId {
    open spec fn obeys_from_spec() -> bool {
        true
    }

    open spec fn from_spec(id: u32) -> ClientId {
        ClientId(id)
    }
}

/// Health of a freshly created unit.
pub const UNIT_HEALTH: u64 = 100_000;

/// Health that one bullet takes from the unit it strikes.
pub const BULLET_DAMAGE: u64 = 10_000;

/// Health that is left of `health` after one bullet struck: it never drops
/// below zero.
pub open spec fn damaged(health: u64) -> u64 {
    if health > BULLET_DAMAGE {
        (health - BULLET_DAMAGE) as u64
    } else {
        0
    }
}

/// The state of a single unit.
#[derive(Clone, Copy, Debug, PartialEq, Eq, Structural)]
pub struct Unit {
    /// The unit identifier
    pub id: UnitId,
    /// X/Y position in the world in m
    pub position: Vec2,
    /// Angle of the unit in radians
    pub angle: Scalar,
    /// Direction and speed of the movement, in m per millisecond. The
    /// direction of the movement may differ from the angle of the unit.
    pub speed_vector: Vec2,
    /// Health of the unit
    pub health: u64,
}

impl Unit {
    /// A unit at rest at `position`, facing along the x axis, in full health.
    pub fn new<T: Into<UnitId>>(id: T, position: Vec2) -> (unit: Unit)
        ensures
            T::obeys_into_spec() ==> unit == (Unit {
                id: id.into_spec(),
                position,
                angle: Scalar::zero(),
                speed_vector: Vec2::zero(),
                health: UNIT_HEALTH,
            }),
    {
        Unit {
            id: id.into(),
            position,
            angle: Scalar::zero(),
            speed_vector: Vec2::zero(),
            health: UNIT_HEALTH,
        }
    }

    /// This unit after one bullet struck it.
    pub open spec fn struck(self) -> Unit {
        Unit { health: damaged(self.health), ..self }
    }

    /// This unit brought to rest.
    pub open spec fn halted(self) -> Unit {
        Unit { speed_vector: Vec2::zero(), ..self }
    }

    /// Takes the damage of one bullet.
    pub fn take_hit(&mut self)
        ensures
            *final(self) == old(self).struck(),
    {
        if self.health > BULLET_DAMAGE {
            self.health = self.health - BULLET_DAMAGE;
        } else {
            self.health = 0;
        }
    }
}

/// A projectile in flight.
#[derive(Clone, Copy, Debug, PartialEq, Eq, Structural)]
pub struct Bullet {
    pub position: Vec2,
    pub speed_vector: Vec2,
}

impl Bullet {
    pub fn new(position: Vec2, speed: Vec2) -> (bullet: Bullet)
        ensures
            bullet == (Bullet { position, speed_vector: speed }),
    {
        Bullet { position, speed_vector: speed }
    }
}

/// A player has an ID and consists of 0..N `Unit`s
#[derive(Clone, Debug, PartialEq, Eq)]
pub struct Player {
    pub id: ClientId,
    pub units: Vec<Unit>,
}

/// The mathematical content of a [`Player`].
pub struct PlayerView {
    pub id: ClientId,
    pub units: Seq<Unit>,
}

impl View for Player {
    type V = PlayerView;

    open spec fn view(&self) -> PlayerView {
        PlayerView { id: self.id, units: self.units@ }
    }
}

impl Player {
    /// A player without units.
    pub fn new<T: Into<ClientId>>(id: T) -> (player: Player)
        ensures
            T::obeys_into_spec() ==> player@ == (PlayerView {
                id: id.into_spec(),
                units: Seq::empty(),
            }),
    {
        Player { id: id.into(), units: Vec::new() }
    }
}

/// Data related to the entire world, like width and height.
///
/// This needs to be transferred to the client only once, on connecting.
#[derive(Clone, Copy, Debug, PartialEq, Eq, Structural)]
pub struct WorldState {
    /// Width of the world in m
    pub x: Scalar,
    /// Height of the world in m
    pub y: Scalar,
}

impl WorldState {
    pub fn new(x: Scalar, y: Scalar) -> (world: WorldState)
        ensures
            world == (WorldState { x, y }),
    {
        WorldState { x, y }
    }
}

/// The place of a unit in a game: the index of its player, and its index
/// among that player's units.
#[derive(Clone, Copy, Debug, PartialEq, Eq, Structural)]
pub struct UnitSlot {
    pub player: usize,
    pub unit: usize,
}

/// A unit on its way: its place in the game, and where it is to go.
#[derive(Clone, Copy, Debug, PartialEq, Eq, Structural)]
pub struct Pursuit {
    pub slot: UnitSlot,
    pub target: Vec2,
}

/// What the geometry says of one bullet, at its position of this tick.
#[derive(Clone, Debug, PartialEq, Eq)]
pub struct BulletReport {
    /// Whether the bullet has left the world
    pub outside: bool,
    /// The slots of the units whose hit-triangle holds the bullet, in the
    /// order in which they are to be tried
    pub touching: Vec<UnitSlot>,
}

/// Data related to the current game.
///
/// This needs to be transferred to the client every time the game state
/// changes.
#[derive(Clone, Debug, PartialEq, Eq)]
pub struct GameState {
    /// List of players
    pub players: Vec<Player>,
    pub bullets: Vec<Bullet>,
}

/// The mathematical content of a [`GameState`].
pub struct GameView {
    pub players: Seq<PlayerView>,
    pub bullets: Seq<Bullet>,
}

impl View for GameState {
    type V = GameView;

    open spec fn view(&self) -> GameView {
        GameView { players: self.players@.map_values(|p: Player| p@), bullets: self.bullets@ }
    }
}

impl GameView {
    /// Whether `slot` names a unit of this game.
    pub open spec fn has_slot(self, slot: UnitSlot) -> bool {
        &&& slot.player < self.players.len()
        &&& slot.unit < self.players[slot.player as int].units.len()
    }

    /// The unit at `slot`.
    pub open spec fn unit(self, slot: UnitSlot) -> Unit
        recommends
            self.has_slot(slot),
    {
        self.players[slot.player as int].units[slot.unit as int]
    }

    /// Whether the lengths of the lists fit the machine, which holds of the
    /// content of every [`GameState`].
    pub open spec fn fits(self) -> bool {
        &&& self.players.len() <= usize::MAX
        &&& forall|p: int|
            0 <= p < self.players.len() ==> (#[trigger] self.players[p]).units.len() <= usize::MAX
    }
}

impl GameState {
    /// The lengths of the lists of a game fit the machine.
    pub proof fn lemma_fits(&self)
        ensures
            self@.fits(),
    {
        assert(self@.players.len() == self.players.len());
        assert forall|p: int|
            0 <= p < self@.players.len() implies (#[trigger] self@.players[p]).units.len()
            <= usize::MAX by {
            let units = self.players@[p].units;
            assert(self@.players[p].units == units@);
            assert(units.len() == units@.len());
        }
    }

    /// A game without players and without bullets.
    pub fn new() -> (game: GameState)
        ensures
            game@ == (GameView { players: Seq::empty(), bullets: Seq::empty() }),
    {
        let game = GameState { players: Vec::new(), bullets: Vec::new() };
        assert(game@.players =~= Seq::empty());
        game
    }
}

} // verus!
