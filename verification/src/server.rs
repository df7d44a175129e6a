//! The rules of the server: identifier generators, the handshake of a
//! connection and what follows it, and the command processor.
use vstd::prelude::*;
use crate::codec::{decode_spec, lemma_decode_encode, wire_message, DecodeError};
use crate::common::{Scalar, Vec2};
use crate::network::{Command, Message, MessageView};
use crate::state::{
    Bullet, ClientId, GameState, GameView, Player, PlayerView, Unit, UnitId, UnitSlot,
    WorldState, UNIT_HEALTH,
};
use crate::targets::TargetMap;

verus! {

/// Number of units that a new player starts with.
pub const UNITS_PER_PLAYER: u32 = 4;

/// Number of positions that are tried for a new unit before its placement is
/// given up.
pub const SPAWN_ATTEMPTS: u32 = 42;

/// Number of bytes within which the first message of a connection has to end.
pub const MESSAGE_LIMIT: usize = 1024;

/// Milliseconds between two ticks of the simulation.
pub const TICK_MS: u64 = 5;

/// Milliseconds between two snapshots that a connection sends.
pub const BROADCAST_MS: u64 = 10;

/// Hands out the identifiers 0, 1, 2, ... in turn, each once.
#[derive(Clone, Copy, Debug, PartialEq, Eq, Structural)]
pub struct IdGenerator {
    /// The identifier to hand out next; `None` once all are out
    cursor: Option<u32>,
}

impl IdGenerator {
    /// The number of identifiers handed out so far.
    pub closed spec fn issued(&self) -> nat {
        match self.cursor {
            Some(next) => next as nat,
            None => u32::MAX as nat + 1,
        }
    }

    /// A generator that has handed out nothing.
    pub fn new() -> (ids: IdGenerator)
        ensures
            ids.issued() == 0,
    {
        IdGenerator { cursor: Some(0) }
    }

    /// A generator that hands out `first` next, as one does that has handed
    /// out `first` identifiers.
    pub fn starting_at(first: u32) -> (ids: IdGenerator)
        ensures
            ids.issued() == first,
    {
        IdGenerator { cursor: Some(first) }
    }

    /// Whether `count` more identifiers can be handed out.
    pub fn has(&self, count: u32) -> (enough: bool)
        ensures
            enough == (self.issued() + count <= u32::MAX + 1),
    {
        match self.cursor {
            Some(next) => count == 0 || u32::MAX - next >= count - 1,
            None => count == 0,
        }
    }

    /// Hands out the next identifier: the number of identifiers handed out
    /// before. `None`, and nothing changes, once all identifiers are out.
    pub fn next(&mut self) -> (id: Option<u32>)
        ensures
            old(self).issued() <= u32::MAX ==> id == Some(old(self).issued() as u32)
                && final(self).issued() == old(self).issued() + 1,
            old(self).issued() > u32::MAX ==> id.is_none() && *final(self) == *old(self),
    {
        match self.cursor {
            Some(next) => {
                if next == u32::MAX {
                    self.cursor = None;
                } else {
                    self.cursor = Some(next + 1);
                }
                Some(next)
            },
            None => None,
        }
    }
}

/// Why a player could not join: the identifiers of one kind are used up.
#[derive(Clone, Copy, Debug, PartialEq, Eq, Structural)]
pub enum Exhausted {
    ClientIds,
    UnitIds,
}

/// The units that a new player starts with, as far as the first `upto` of the
/// `spots` go: the unit for `spots[k]` has the identifier `first + k` and
/// stands at that position. Where `spots` has no position for a unit, the
/// player goes without it.
pub open spec fn spawn_upto(first: nat, spots: Seq<Option<Vec2>>, upto: nat) -> Seq<Unit>
    decreases upto,
{
    if upto == 0 {
        Seq::empty()
    } else {
        let before = spawn_upto(first, spots, (upto - 1) as nat);
        if upto - 1 < spots.len() && spots[upto - 1] is Some {
            before.push(
                Unit {
                    id: UnitId((first + upto - 1) as u32),
                    position: spots[upto - 1]->0,
                    angle: Scalar::zero(),
                    speed_vector: Vec2::zero(),
                    health: UNIT_HEALTH,
                },
            )
        } else {
            before
        }
    }
}

/// The game after a player with identifier `id` joined, whose units take
/// their identifiers from `first` on.
pub open spec fn joined(
    game: GameView,
    id: ClientId,
    first: nat,
    spots: Seq<Option<Vec2>>,
) -> GameView {
    GameView {
        players: game.players.push(
            PlayerView { id, units: spawn_upto(first, spots, UNITS_PER_PLAYER as nat) },
        ),
        ..game
    }
}

/// The units of a new player have the identifiers from `first` on, in
/// ascending order.
proof fn lemma_spawn_ids(first: nat, spots: Seq<Option<Vec2>>, upto: nat)
    requires
        first + upto <= u32::MAX + 1,
    ensures
        spawn_upto(first, spots, upto).len() <= upto,
        forall|k: int|
            0 <= k < spawn_upto(first, spots, upto).len() ==> first <= (#[trigger] spawn_upto(
                first,
                spots,
                upto,
            )[k]).id.0 < first + upto,
        forall|k: int, l: int|
            0 <= k < l < spawn_upto(first, spots, upto).len() ==> (#[trigger] spawn_upto(
                first,
                spots,
                upto,
            )[k]).id.0 < (#[trigger] spawn_upto(first, spots, upto)[l]).id.0,
    decreases upto,
{
    if upto > 0 {
        lemma_spawn_ids(first, spots, (upto - 1) as nat);
    }
}

/// Joining keeps the invariant of the identifiers: the new player and its
/// units get identifiers that nothing in the game has.
pub proof fn lemma_join_consistent(
    game: GameView,
    clients: nat,
    units: nat,
    spots: Seq<Option<Vec2>>,
)
    requires
        game.consistent(clients, units),
        clients <= u32::MAX,
        units + UNITS_PER_PLAYER <= u32::MAX + 1,
    ensures
        joined(game, ClientId(clients as u32), units, spots).consistent(
            clients + 1,
            units + UNITS_PER_PLAYER as nat,
        ),
{
    let after = joined(game, ClientId(clients as u32), units, spots);
    let fresh = spawn_upto(units, spots, UNITS_PER_PLAYER as nat);
    let last = game.players.len() as int;
    lemma_spawn_ids(units, spots, UNITS_PER_PLAYER as nat);
    assert forall|a: UnitSlot| after.has_slot(a) implies (#[trigger] after.unit(a)).id.0 < units
        + UNITS_PER_PLAYER && (if a.player == last {
        after.unit(a) == fresh[a.unit as int] && units <= after.unit(a).id.0
    } else {
        game.has_slot(a) && after.unit(a) == game.unit(a) && after.unit(a).id.0 < units
    }) by {
        if a.player != last {
            assert(game.has_slot(a));
            assert(game.unit(a).id.0 < units);
        }
    }
    assert forall|a: UnitSlot, b: UnitSlot|
        after.has_slot(a) && after.has_slot(b) && a != b implies (#[trigger] after.unit(a)).id != (
    #[trigger] after.unit(b)).id by {
        if a.player == last && b.player == last {
            if a.unit < b.unit {
                assert(fresh[a.unit as int].id.0 < fresh[b.unit as int].id.0);
            } else {
                assert(fresh[b.unit as int].id.0 < fresh[a.unit as int].id.0);
            }
        } else if a.player != last && b.player != last {
            assert(game.unit(a).id != game.unit(b).id);
        }
    }
    assert forall|i: int, j: int| 0 <= i < j < after.players.len() implies (
    #[trigger] after.players[i]).id != (#[trigger] after.players[j]).id by {
        assert(game.players[i].id.0 < clients);
        if j < last {
            assert(game.players[i].id != game.players[j].id);
        }
    }
    assert forall|i: int| 0 <= i < after.players.len() implies (#[trigger] after.players[i]).id.0
        < clients + 1 by {
        if i < last {
            assert(game.players[i].id.0 < clients);
        }
    }
}

/// A player that joined takes part, as every player does that took part
/// before: a reconnect with its identifier is welcome from then on.
pub proof fn lemma_joined_has_player(
    game: GameView,
    id: ClientId,
    first: nat,
    spots: Seq<Option<Vec2>>,
    other: ClientId,
)
    ensures
        joined(game, id, first, spots).has_player(id),
        game.has_player(other) ==> joined(game, id, first, spots).has_player(other),
{
    let after = joined(game, id, first, spots);
    assert(after.players[game.players.len() as int].id == id);
    if game.has_player(other) {
        let i = choose|i: int| 0 <= i < game.players.len() && game.players[i].id == other;
        assert(after.players[i].id == other);
    }
}

/// Lets a new player join the game. The player gets the next client
/// identifier, and the next [`UNITS_PER_PLAYER`] unit identifiers are used for
/// its units, one each, whether or not `spots` has a position for the unit.
/// Where the identifiers do not suffice, nothing changes.
pub fn join(
    game: &mut GameState,
    client_ids: &mut IdGenerator,
    unit_ids: &mut IdGenerator,
    spots: &Vec<Option<Vec2>>,
) -> (outcome: Result<ClientId, Exhausted>)
    ensures
        old(client_ids).issued() > u32::MAX ==> outcome == Err::<ClientId, Exhausted>(
            Exhausted::ClientIds,
        ),
        old(client_ids).issued() <= u32::MAX && old(unit_ids).issued() + UNITS_PER_PLAYER > u32::MAX
            + 1 ==> outcome == Err::<ClientId, Exhausted>(Exhausted::UnitIds),
        old(client_ids).issued() <= u32::MAX && old(unit_ids).issued() + UNITS_PER_PLAYER
            <= u32::MAX + 1 ==> outcome == Ok::<ClientId, Exhausted>(
            ClientId(old(client_ids).issued() as u32),
        ),
        outcome is Err ==> final(game)@ == old(game)@ && *final(client_ids) == *old(client_ids)
            && *final(unit_ids) == *old(unit_ids),
        outcome matches Ok(id) ==> {
            &&& final(client_ids).issued() == old(client_ids).issued() + 1
            &&& final(unit_ids).issued() == old(unit_ids).issued() + UNITS_PER_PLAYER
            &&& final(game)@ == joined(old(game)@, id, old(unit_ids).issued(), spots@)
        },
{
    if !client_ids.has(1) {
        return Err(Exhausted::ClientIds);
    }
    if !unit_ids.has(UNITS_PER_PLAYER) {
        return Err(Exhausted::UnitIds);
    }
    let ghost first = unit_ids.issued();
    let id = match client_ids.next() {
        Some(id) => ClientId(id),
        None => {
            return Err(Exhausted::ClientIds);
        },
    };
    let mut player = Player::new(id.0);
    let mut k: u32 = 0;
    while k < UNITS_PER_PLAYER
        invariant
            k <= UNITS_PER_PLAYER,
            first + UNITS_PER_PLAYER <= u32::MAX + 1,
            unit_ids.issued() == first + k,
            player.id == id,
            player.units@ == spawn_upto(first, spots@, k as nat),
        decreases UNITS_PER_PLAYER - k,
    {
        let unit_id = match unit_ids.next() {
            Some(unit_id) => unit_id,
            None => {
                return Err(Exhausted::UnitIds);
            },
        };
        if (k as usize) < spots.len() {
            match spots[k as usize] {
                Some(position) => {
                    player.units.push(Unit::new(unit_id, position));
                },
                None => {},
            }
        }
        k += 1;
    }
    game.players.push(player);
    assert(game@.players =~= old(game)@.players.push(player@));
    Ok(id)
}

/// Where a connection stands.
#[derive(Clone, Copy, Debug, PartialEq, Eq, Structural)]
pub enum ConnState {
    /// Nothing was read yet
    AwaitingHello,
    /// The client is known: commands come in, snapshots go out
    Active,
    /// Nothing more is read or written
    Closed,
}

/// What the server does on the first message of a connection: what it
/// replies, if anything, and where the connection stands then.
#[derive(Clone, Debug, PartialEq, Eq)]
pub struct Greeting {
    pub reply: Option<Message>,
    pub state: ConnState,
}

/// The handshake. `received` is the first message of the connection, or why
/// none could be read.
///
/// A `ClientHello` lets a new player [`join`]: the reply is a `ServerHello`
/// with the new identifier and the world, and the connection is active;
/// where the identifiers do not suffice, nothing changes and the reason is
/// returned. A `ClientReconnect` is answered by a `ServerHello` and an active
/// connection where a player with that identifier takes part, and by `Error`
/// and a closed connection where none does. Any other message is answered by
/// `Error`, and the connection is closed. Where no message could be read the
/// connection is closed without a reply. In all but the first case nothing
/// changes.
pub fn handshake(
    game: &mut GameState,
    client_ids: &mut IdGenerator,
    unit_ids: &mut IdGenerator,
    world: &WorldState,
    received: &Result<Message, DecodeError>,
    spots: &Vec<Option<Vec2>>,
) -> (greeting: Result<Greeting, Exhausted>)
    ensures
        *received matches Ok(Message::ClientHello) ==> {
            &&& old(client_ids).issued() > u32::MAX ==> greeting == Err::<Greeting, Exhausted>(
                Exhausted::ClientIds,
            )
            &&& old(client_ids).issued() <= u32::MAX && old(unit_ids).issued() + UNITS_PER_PLAYER
                > u32::MAX + 1 ==> greeting == Err::<Greeting, Exhausted>(Exhausted::UnitIds)
            &&& old(client_ids).issued() <= u32::MAX && old(unit_ids).issued() + UNITS_PER_PLAYER
                <= u32::MAX + 1 ==> {
                let id = ClientId(old(client_ids).issued() as u32);
                &&& greeting == Ok::<Greeting, Exhausted>(
                    Greeting {
                        reply: Some(Message::ServerHello(id, *world)),
                        state: ConnState::Active,
                    },
                )
                &&& final(client_ids).issued() == old(client_ids).issued() + 1
                &&& final(unit_ids).issued() == old(unit_ids).issued() + UNITS_PER_PLAYER
                &&& final(game)@ == joined(old(game)@, id, old(unit_ids).issued(), spots@)
            }
        },
        *received matches Ok(Message::ClientReconnect(id)) ==> greeting == Ok::<
            Greeting,
            Exhausted,
        >(
            if old(game)@.has_player(id) {
                Greeting { reply: Some(Message::ServerHello(id, *world)), state: ConnState::Active }
            } else {
                Greeting { reply: Some(Message::Error), state: ConnState::Closed }
            },
        ),
        *received matches Ok(message) && !(message is ClientHello) && !(message is ClientReconnect)
            ==> greeting == Ok::<Greeting, Exhausted>(
            Greeting { reply: Some(Message::Error), state: ConnState::Closed },
        ),
        *received is Err ==> greeting == Ok::<Greeting, Exhausted>(
            Greeting { reply: None, state: ConnState::Closed },
        ),
        !(*received matches Ok(Message::ClientHello)) || greeting is Err ==> final(game)@ == old(
            game,
        )@ && *final(client_ids) == *old(client_ids) && *final(unit_ids) == *old(unit_ids),
{
    match received {
        Ok(Message::ClientHello) => {
            match join(game, client_ids, unit_ids, spots) {
                Ok(id) => Ok(
                    Greeting {
                        reply: Some(Message::ServerHello(id, *world)),
                        state: ConnState::Active,
                    },
                ),
                Err(e) => Err(e),
            }
        },
        Ok(Message::ClientReconnect(id)) => {
            if game.has_player(*id) {
                Ok(
                    Greeting {
                        reply: Some(Message::ServerHello(*id, *world)),
                        state: ConnState::Active,
                    },
                )
            } else {
                Ok(Greeting { reply: Some(Message::Error), state: ConnState::Closed })
            }
        },
        Ok(_) => Ok(Greeting { reply: Some(Message::Error), state: ConnState::Closed }),
        Err(_) => Ok(Greeting { reply: None, state: ConnState::Closed }),
    }
}

/// The limit of the handshake admits every hello and every reconnect: its
/// bytes, whatever follows them, are read back as the message.
pub proof fn lemma_hello_within_limit(message: MessageView, rest: Seq<u8>)
    requires
        message is ClientHello || message is ClientReconnect,
    ensures
        wire_message(message).len() <= 5,
        decode_spec(wire_message(message) + rest, MESSAGE_LIMIT as nat) == Ok::<
            (MessageView, int),
            DecodeError,
        >((message, wire_message(message).len() as int)),
{
    vstd::bytes::lemma_auto_spec_u32_to_from_le_bytes();
    lemma_decode_encode(message, rest, MESSAGE_LIMIT as nat);
}

/// What the server does on a message of an active connection: the command
/// to carry out, if it is one, what it replies, if anything, and where the
/// connection stands then.
#[derive(Clone, Debug, PartialEq, Eq)]
pub struct Reception {
    pub command: Option<Command>,
    pub reply: Option<Message>,
    pub state: ConnState,
}

/// The receiving side of an active connection. `received` is the next
/// message, or why none could be read.
///
/// A command is to be carried out and the connection stays active. Any
/// other message is answered by `Error` and ends the connection. Where no
/// message could be read the connection ends without a reply.
pub fn receive(received: &Result<Message, DecodeError>) -> (reception: Reception)
    ensures
        reception == match *received {
            Ok(Message::Command(command)) => Reception {
                command: Some(command),
                reply: None,
                state: ConnState::Active,
            },
            Ok(_) => Reception {
                command: None,
                reply: Some(Message::Error),
                state: ConnState::Closed,
            },
            Err(_) => Reception { command: None, reply: None, state: ConnState::Closed },
        },
{
    match received {
        Ok(Message::Command(command)) => Reception {
            command: Some(*command),
            reply: None,
            state: ConnState::Active,
        },
        Ok(_) => Reception { command: None, reply: Some(Message::Error), state: ConnState::Closed },
        Err(_) => Reception { command: None, reply: None, state: ConnState::Closed },
    }
}

/// What the geometry worked out for a command, from the command and from
/// the units that it names, taken in scan order.
#[derive(Clone, Debug, PartialEq, Eq)]
pub struct Aim {
    /// For a move: the requested position, clamped into the world
    pub target: Vec2,
    /// For a move: for each unit, the angle at which it faces the target
    pub headings: Vec<Scalar>,
    /// For a shot: for each unit, the bullet that it fires
    pub bullets: Vec<Bullet>,
}

/// The game and the pending targets after a command.
///
/// A move turns each unit with the identifier toward the target and makes
/// the target the pending target of the identifier. A shot adds one bullet
/// for each unit with the identifier. Where no unit has the identifier,
/// nothing changes.
pub open spec fn after_command(
    game: GameView,
    targets: Map<UnitId, Vec2>,
    command: Command,
    aim: Aim,
) -> (GameView, Map<UnitId, Vec2>) {
    match command {
        Command::Move(id, _) => (
            game.faced(id, aim.headings@),
            if game.units_with_id(id).len() > 0 {
                targets.insert(id, aim.target)
            } else {
                targets
            },
        ),
        Command::Shoot(id) => (
            GameView { bullets: game.bullets + game.shots(id, aim.bullets@), ..game },
            targets,
        ),
    }
}

/// The command processor: carries out a command of a client.
pub fn handle_command(
    game: &mut GameState,
    unit_targets: &mut TargetMap,
    command: &Command,
    aim: &Aim,
)
    ensures
        (final(game)@, final(unit_targets)@) == after_command(
            old(game)@,
            old(unit_targets)@,
            *command,
            *aim,
        ),
{
    match command {
        Command::Move(id, _) => {
            let found = game.units_with_id(*id);
            game.face(*id, &aim.headings);
            if found.len() > 0 {
                unit_targets.insert(*id, aim.target);
            }
        },
        Command::Shoot(id) => {
            game.shoot(*id, &aim.bullets);
        },
    }
}

/// Idempotence: a move carried out twice leaves the game and the pending
/// targets as the move carried out once does.
pub proof fn lemma_move_twice(
    game: GameView,
    targets: Map<UnitId, Vec2>,
    command: Command,
    aim: Aim,
)
    requires
        game.fits(),
        command is Move,
    ensures
        ({
            let once = after_command(game, targets, command, aim);
            after_command(once.0, once.1, command, aim) == once
        }),
{
    let id = command->Move_0;
    let once = after_command(game, targets, command, aim);
    let twice = after_command(once.0, once.1, command, aim);
    game.lemma_faced_twice(id, aim.headings@);
    assert(twice.1 =~= once.1);
}

/// A command keeps the invariant of the identifiers.
pub proof fn lemma_command_consistent(
    game: GameView,
    targets: Map<UnitId, Vec2>,
    command: Command,
    aim: Aim,
    clients: nat,
    units: nat,
)
    requires
        game.fits(),
        game.consistent(clients, units),
    ensures
        after_command(game, targets, command, aim).0.consistent(clients, units),
{
    let after = after_command(game, targets, command, aim).0;
    match command {
        Command::Move(id, _) => {
            game.lemma_steps_identities(targets, id, aim.headings@, after.bullets);
        },
        Command::Shoot(id) => {
            game.lemma_steps_identities(targets, id, aim.headings@, after.bullets);
        },
    }
    game.lemma_same_identities(after, clients, units);
}

/// A command for an identifier that no unit has changes nothing.
pub proof fn lemma_unknown_unit(
    game: GameView,
    targets: Map<UnitId, Vec2>,
    command: Command,
    aim: Aim,
)
    requires
        game.fits(),
        forall|slot: UnitSlot|
            game.has_slot(slot) ==> (#[trigger] game.unit(slot)).id != match command {
                Command::Move(id, _) => id,
                Command::Shoot(id) => id,
            },
    ensures
        after_command(game, targets, command, aim) == (game, targets),
{
    let after = after_command(game, targets, command, aim).0;
    match command {
        Command::Move(id, _) => {
            game.lemma_units_with_id(id);
            if game.units_with_id(id).len() > 0 {
                assert(game.has_slot(game.units_with_id(id)[0]));
            }
            assert forall|p: int| 0 <= p < game.players.len() implies #[trigger] after.players[p]
                == game.players[p] by {
                assert forall|u: int| 0 <= u < game.players[p].units.len() implies (
                #[trigger] after.players[p].units[u]) == game.players[p].units[u] by {
                    let slot = UnitSlot { player: p as usize, unit: u as usize };
                    assert(game.has_slot(slot));
                    assert(game.unit(slot).id != id);
                }
                assert(after.players[p].units =~= game.players[p].units);
            }
            assert(after.players =~= game.players);
        },
        Command::Shoot(id) => {
            game.lemma_units_with_id(id);
            if game.units_with_id(id).len() > 0 {
                assert(game.has_slot(game.units_with_id(id)[0]));
            }
            assert(game.shots(id, aim.bullets@) =~= Seq::empty());
            assert(after.bullets =~= game.bullets);
        },
    }
}

} // verus!
