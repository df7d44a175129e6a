//! The wire format: how messages are laid out as bytes, and how bytes are
//! read back as messages.
//!
//! A message is one tag byte and the fields of its variant. Integers are
//! little-endian and of fixed width, a scalar is the eight bytes of its bit
//! pattern, and a list is its length in eight bytes and then its items.
use vstd::bytes::*;
use vstd::prelude::*;
use vstd::slice::slice_subrange;
use crate::common::{Scalar, Vec2};
use crate::network::{Command, Message, MessageView};
use crate::state::{
    Bullet, ClientId, GameState, GameView, Player, PlayerView, Unit, UnitId, WorldState,
};

verus! {

/// Bytes that a vector takes on the wire.
pub const VEC2_SIZE: usize = 16;

/// Bytes that a unit takes on the wire.
pub const UNIT_SIZE: usize = 52;

/// Bytes that a bullet takes on the wire.
pub const BULLET_SIZE: usize = 32;

pub const TAG_ERROR: u8 = 0;

pub const TAG_CLIENT_HELLO: u8 = 1;

pub const TAG_CLIENT_RECONNECT: u8 = 2;

pub const TAG_SERVER_HELLO: u8 = 3;

pub const TAG_UPDATE_GAMESTATE: u8 = 4;

pub const TAG_COMMAND: u8 = 5;

pub const TAG_MOVE: u8 = 0;

pub const TAG_SHOOT: u8 = 1;

// ----- layout -----

pub open spec fn wire_u32(x: u32) -> Seq<u8> {
    spec_u32_to_le_bytes(x)
}

pub open spec fn wire_u64(x: u64) -> Seq<u8> {
    spec_u64_to_le_bytes(x)
}

pub open spec fn wire_vec2(v: Vec2) -> Seq<u8> {
    wire_u64(v.x.bits) + wire_u64(v.y.bits)
}

pub open spec fn wire_unit(unit: Unit) -> Seq<u8> {
    wire_u32(unit.id.0) + wire_vec2(unit.position) + wire_u64(unit.angle.bits) + wire_vec2(
        unit.speed_vector,
    ) + wire_u64(unit.health)
}

pub open spec fn wire_bullet(bullet: Bullet) -> Seq<u8> {
    wire_vec2(bullet.position) + wire_vec2(bullet.speed_vector)
}

pub open spec fn wire_command(command: Command) -> Seq<u8> {
    match command {
        Command::Move(id, target) => seq![TAG_MOVE] + wire_u32(id.0) + wire_vec2(target),
        Command::Shoot(id) => seq![TAG_SHOOT] + wire_u32(id.0),
    }
}

// ----- reading at a position -----

pub open spec fn u32_at(bytes: Seq<u8>, at: int) -> u32 {
    spec_u32_from_le_bytes(bytes.subrange(at, at + 4))
}

pub open spec fn u64_at(bytes: Seq<u8>, at: int) -> u64 {
    spec_u64_from_le_bytes(bytes.subrange(at, at + 8))
}

pub open spec fn scalar_at(bytes: Seq<u8>, at: int) -> Scalar {
    Scalar { bits: u64_at(bytes, at) }
}

pub open spec fn vec2_at(bytes: Seq<u8>, at: int) -> Vec2 {
    Vec2 { x: scalar_at(bytes, at), y: scalar_at(bytes, at + 8) }
}

pub open spec fn unit_at(bytes: Seq<u8>, at: int) -> Unit {
    Unit {
        id: UnitId(u32_at(bytes, at)),
        position: vec2_at(bytes, at + 4),
        angle: scalar_at(bytes, at + 20),
        speed_vector: vec2_at(bytes, at + 28),
        health: u64_at(bytes, at + 44),
    }
}

pub open spec fn bullet_at(bytes: Seq<u8>, at: int) -> Bullet {
    Bullet { position: vec2_at(bytes, at), speed_vector: vec2_at(bytes, at + 16) }
}

/// Whether `part` stands in `bytes` at position `at`.
pub open spec fn holds(bytes: Seq<u8>, at: int, part: Seq<u8>) -> bool {
    0 <= at && at + part.len() <= bytes.len() && bytes.subrange(at, at + part.len()) == part
}

/// Where two parts stand in `bytes` one after the other, each stands there.
pub proof fn lemma_holds_split(bytes: Seq<u8>, at: int, first: Seq<u8>, second: Seq<u8>)
    requires
        holds(bytes, at, first + second),
    ensures
        holds(bytes, at, first),
        holds(bytes, at + first.len(), second),
{
    let whole = bytes.subrange(at, at + (first + second).len());
    assert(bytes.subrange(at, at + first.len()) =~= whole.subrange(0, first.len() as int));
    assert(whole.subrange(0, first.len() as int) =~= first);
    assert(bytes.subrange(at + first.len(), at + first.len() + second.len()) =~= whole.subrange(
        first.len() as int,
        whole.len() as int,
    ));
    assert(whole.subrange(first.len() as int, whole.len() as int) =~= second);
}

pub proof fn lemma_u32_at(bytes: Seq<u8>, at: int, x: u32)
    requires
        holds(bytes, at, wire_u32(x)),
    ensures
        u32_at(bytes, at) == x,
        wire_u32(x).len() == 4,
{
    lemma_auto_spec_u32_to_from_le_bytes();
}

pub proof fn lemma_u64_at(bytes: Seq<u8>, at: int, x: u64)
    requires
        holds(bytes, at, wire_u64(x)),
    ensures
        u64_at(bytes, at) == x,
        wire_u64(x).len() == 8,
{
    lemma_auto_spec_u64_to_from_le_bytes();
}

pub proof fn lemma_vec2_at(bytes: Seq<u8>, at: int, v: Vec2)
    requires
        holds(bytes, at, wire_vec2(v)),
    ensures
        vec2_at(bytes, at) == v,
        wire_vec2(v).len() == VEC2_SIZE,
{
    lemma_auto_spec_u64_to_from_le_bytes();
    lemma_holds_split(bytes, at, wire_u64(v.x.bits), wire_u64(v.y.bits));
    lemma_u64_at(bytes, at, v.x.bits);
    lemma_u64_at(bytes, at + 8, v.y.bits);
}

pub proof fn lemma_unit_at(bytes: Seq<u8>, at: int, unit: Unit)
    requires
        holds(bytes, at, wire_unit(unit)),
    ensures
        unit_at(bytes, at) == unit,
        wire_unit(unit).len() == UNIT_SIZE,
{
    lemma_auto_spec_u32_to_from_le_bytes();
    lemma_auto_spec_u64_to_from_le_bytes();
    let a = wire_u32(unit.id.0);
    let b = wire_vec2(unit.position);
    let c = wire_u64(unit.angle.bits);
    let d = wire_vec2(unit.speed_vector);
    let e = wire_u64(unit.health);
    lemma_holds_split(bytes, at, a + b + c + d, e);
    lemma_holds_split(bytes, at, a + b + c, d);
    lemma_holds_split(bytes, at, a + b, c);
    lemma_holds_split(bytes, at, a, b);
    lemma_u32_at(bytes, at, unit.id.0);
    lemma_vec2_at(bytes, at + 4, unit.position);
    lemma_u64_at(bytes, at + 20, unit.angle.bits);
    lemma_vec2_at(bytes, at + 28, unit.speed_vector);
    lemma_u64_at(bytes, at + 44, unit.health);
}

pub proof fn lemma_bullet_at(bytes: Seq<u8>, at: int, bullet: Bullet)
    requires
        holds(bytes, at, wire_bullet(bullet)),
    ensures
        bullet_at(bytes, at) == bullet,
        wire_bullet(bullet).len() == BULLET_SIZE,
{
    lemma_holds_split(bytes, at, wire_vec2(bullet.position), wire_vec2(bullet.speed_vector));
    lemma_vec2_at(bytes, at, bullet.position);
    lemma_vec2_at(bytes, at + 16, bullet.speed_vector);
}

// ----- writing -----

fn put_u32(out: &mut Vec<u8>, x: u32)
    ensures
        final(out)@ == old(out)@ + wire_u32(x),
{
    let mut bytes = u32_to_le_bytes(x);
    out.append(&mut bytes);
}

fn put_u64(out: &mut Vec<u8>, x: u64)
    ensures
        final(out)@ == old(out)@ + wire_u64(x),
{
    let mut bytes = u64_to_le_bytes(x);
    out.append(&mut bytes);
}

fn put_vec2(out: &mut Vec<u8>, v: Vec2)
    ensures
        final(out)@ == old(out)@ + wire_vec2(v),
{
    put_u64(out, v.x.bits);
    put_u64(out, v.y.bits);
    assert(out@ =~= old(out)@ + wire_vec2(v));
}

fn put_unit(out: &mut Vec<u8>, unit: &Unit)
    ensures
        final(out)@ == old(out)@ + wire_unit(*unit),
{
    put_u32(out, unit.id.0);
    put_vec2(out, unit.position);
    put_u64(out, unit.angle.bits);
    put_vec2(out, unit.speed_vector);
    put_u64(out, unit.health);
    assert(out@ =~= old(out)@ + wire_unit(*unit));
}

fn put_bullet(out: &mut Vec<u8>, bullet: &Bullet)
    ensures
        final(out)@ == old(out)@ + wire_bullet(*bullet),
{
    put_vec2(out, bullet.position);
    put_vec2(out, bullet.speed_vector);
    assert(out@ =~= old(out)@ + wire_bullet(*bullet));
}

fn put_command(out: &mut Vec<u8>, command: &Command)
    ensures
        final(out)@ == old(out)@ + wire_command(*command),
{
    match command {
        Command::Move(id, target) => {
            out.push(TAG_MOVE);
            put_u32(out, id.0);
            put_vec2(out, *target);
        },
        Command::Shoot(id) => {
            out.push(TAG_SHOOT);
            put_u32(out, id.0);
        },
    }
    assert(out@ =~= old(out)@ + wire_command(*command));
}

// ----- reading -----

fn get_u32(bytes: &[u8], at: usize) -> (x: u32)
    requires
        at + 4 <= bytes.len(),
    ensures
        x == u32_at(bytes@, at as int),
{
    u32_from_le_bytes(slice_subrange(bytes, at, at + 4))
}

fn get_u64(bytes: &[u8], at: usize) -> (x: u64)
    requires
        at + 8 <= bytes.len(),
    ensures
        x == u64_at(bytes@, at as int),
{
    u64_from_le_bytes(slice_subrange(bytes, at, at + 8))
}

fn get_vec2(bytes: &[u8], at: usize) -> (v: Vec2)
    requires
        at + VEC2_SIZE <= bytes.len(),
    ensures
        v == vec2_at(bytes@, at as int),
{
    Vec2 { x: Scalar { bits: get_u64(bytes, at) }, y: Scalar { bits: get_u64(bytes, at + 8) } }
}

fn get_unit(bytes: &[u8], at: usize) -> (unit: Unit)
    requires
        at + UNIT_SIZE <= bytes.len(),
    ensures
        unit == unit_at(bytes@, at as int),
{
    Unit {
        id: UnitId(get_u32(bytes, at)),
        position: get_vec2(bytes, at + 4),
        angle: Scalar { bits: get_u64(bytes, at + 20) },
        speed_vector: get_vec2(bytes, at + 28),
        health: get_u64(bytes, at + 44),
    }
}

fn get_bullet(bytes: &[u8], at: usize) -> (bullet: Bullet)
    requires
        at + BULLET_SIZE <= bytes.len(),
    ensures
        bullet == bullet_at(bytes@, at as int),
{
    Bullet { position: get_vec2(bytes, at), speed_vector: get_vec2(bytes, at + 16) }
}

// ----- lists, players, games, messages: layout -----

pub open spec fn wire_units(units: Seq<Unit>) -> Seq<u8>
    decreases units.len(),
{
    if units.len() == 0 {
        Seq::empty()
    } else {
        wire_units(units.drop_last()) + wire_unit(units.last())
    }
}

pub open spec fn wire_bullets(bullets: Seq<Bullet>) -> Seq<u8>
    decreases bullets.len(),
{
    if bullets.len() == 0 {
        Seq::empty()
    } else {
        wire_bullets(bullets.drop_last()) + wire_bullet(bullets.last())
    }
}

pub open spec fn wire_player(player: PlayerView) -> Seq<u8> {
    wire_u32(player.id.0) + wire_u64(player.units.len() as u64) + wire_units(player.units)
}

pub open spec fn wire_players(players: Seq<PlayerView>) -> Seq<u8>
    decreases players.len(),
{
    if players.len() == 0 {
        Seq::empty()
    } else {
        wire_players(players.drop_last()) + wire_player(players.last())
    }
}

pub open spec fn wire_game(game: GameView) -> Seq<u8> {
    wire_u64(game.players.len() as u64) + wire_players(game.players) + wire_u64(
        game.bullets.len() as u64,
    ) + wire_bullets(game.bullets)
}

pub open spec fn wire_world(world: WorldState) -> Seq<u8> {
    wire_u64(world.x.bits) + wire_u64(world.y.bits)
}

/// The bytes of a message: its tag, then its fields.
pub open spec fn wire_message(message: MessageView) -> Seq<u8> {
    match message {
        MessageView::Error => seq![TAG_ERROR],
        MessageView::ClientHello => seq![TAG_CLIENT_HELLO],
        MessageView::ClientReconnect(id) => seq![TAG_CLIENT_RECONNECT] + wire_u32(id.0),
        MessageView::ServerHello(id, world) => seq![TAG_SERVER_HELLO] + wire_u32(id.0)
            + wire_world(world),
        MessageView::UpdateGamestate(game) => seq![TAG_UPDATE_GAMESTATE] + wire_game(game),
        MessageView::Command(command) => seq![TAG_COMMAND] + wire_command(command),
    }
}

// ----- lists, players, games, messages: reading at a position -----

/// Why bytes could not be read as a message.
#[derive(Clone, Copy, Debug, PartialEq, Eq, Structural)]
pub enum DecodeError {
    /// The bytes end before the message does
    Incomplete,
    /// A tag byte names no variant
    UnknownTag,
    /// The message does not end within the limit
    TooLong,
}

/// What reading a value at a position gives: the value and the position
/// behind it, or the reason why there is none.
pub type Parsed<T> = Result<(T, int), DecodeError>;

pub open spec fn units_at(bytes: Seq<u8>, at: int, count: nat) -> Seq<Unit> {
    Seq::new(count, |i: int| unit_at(bytes, at + UNIT_SIZE * i))
}

pub open spec fn bullets_at(bytes: Seq<u8>, at: int, count: nat) -> Seq<Bullet> {
    Seq::new(count, |i: int| bullet_at(bytes, at + BULLET_SIZE * i))
}

pub open spec fn parse_units(bytes: Seq<u8>, at: int, count: nat) -> Parsed<Seq<Unit>> {
    if at + UNIT_SIZE * count <= bytes.len() {
        Ok((units_at(bytes, at, count), at + UNIT_SIZE * count))
    } else {
        Err(DecodeError::Incomplete)
    }
}

pub open spec fn parse_bullets(bytes: Seq<u8>, at: int, count: nat) -> Parsed<Seq<Bullet>> {
    if at + BULLET_SIZE * count <= bytes.len() {
        Ok((bullets_at(bytes, at, count), at + BULLET_SIZE * count))
    } else {
        Err(DecodeError::Incomplete)
    }
}

pub open spec fn parse_player(bytes: Seq<u8>, at: int) -> Parsed<PlayerView> {
    if at + 12 > bytes.len() {
        Err(DecodeError::Incomplete)
    } else {
        match parse_units(bytes, at + 12, u64_at(bytes, at + 4) as nat) {
            Ok((units, end)) => Ok((PlayerView { id: ClientId(u32_at(bytes, at)), units }, end)),
            Err(e) => Err(e),
        }
    }
}

/// Reads `count` players one after the other.
pub open spec fn parse_players(bytes: Seq<u8>, at: int, count: nat) -> Parsed<Seq<PlayerView>>
    decreases count,
{
    if count == 0 {
        Ok((Seq::empty(), at))
    } else {
        match parse_players(bytes, at, (count - 1) as nat) {
            Ok((before, mid)) => match parse_player(bytes, mid) {
                Ok((player, end)) => Ok((before.push(player), end)),
                Err(e) => Err(e),
            },
            Err(e) => Err(e),
        }
    }
}

pub open spec fn parse_game(bytes: Seq<u8>, at: int) -> Parsed<GameView> {
    if at + 8 > bytes.len() {
        Err(DecodeError::Incomplete)
    } else {
        match parse_players(bytes, at + 8, u64_at(bytes, at) as nat) {
            Ok((players, mid)) => if mid + 8 > bytes.len() {
                Err(DecodeError::Incomplete)
            } else {
                match parse_bullets(bytes, mid + 8, u64_at(bytes, mid) as nat) {
                    Ok((bullets, end)) => Ok((GameView { players, bullets }, end)),
                    Err(e) => Err(e),
                }
            },
            Err(e) => Err(e),
        }
    }
}

pub open spec fn parse_command(bytes: Seq<u8>, at: int) -> Parsed<Command> {
    if at + 1 > bytes.len() {
        Err(DecodeError::Incomplete)
    } else if bytes[at] == TAG_MOVE {
        if at + 21 > bytes.len() {
            Err(DecodeError::Incomplete)
        } else {
            Ok((Command::Move(UnitId(u32_at(bytes, at + 1)), vec2_at(bytes, at + 5)), at + 21))
        }
    } else if bytes[at] == TAG_SHOOT {
        if at + 5 > bytes.len() {
            Err(DecodeError::Incomplete)
        } else {
            Ok((Command::Shoot(UnitId(u32_at(bytes, at + 1))), at + 5))
        }
    } else {
        Err(DecodeError::UnknownTag)
    }
}

/// Reads the message that starts at `at`.
pub open spec fn parse_message(bytes: Seq<u8>, at: int) -> Parsed<MessageView> {
    if at + 1 > bytes.len() {
        Err(DecodeError::Incomplete)
    } else if bytes[at] == TAG_ERROR {
        Ok((MessageView::Error, at + 1))
    } else if bytes[at] == TAG_CLIENT_HELLO {
        Ok((MessageView::ClientHello, at + 1))
    } else if bytes[at] == TAG_CLIENT_RECONNECT {
        if at + 5 > bytes.len() {
            Err(DecodeError::Incomplete)
        } else {
            Ok((MessageView::ClientReconnect(ClientId(u32_at(bytes, at + 1))), at + 5))
        }
    } else if bytes[at] == TAG_SERVER_HELLO {
        if at + 21 > bytes.len() {
            Err(DecodeError::Incomplete)
        } else {
            Ok(
                (
                    MessageView::ServerHello(
                        ClientId(u32_at(bytes, at + 1)),
                        WorldState { x: scalar_at(bytes, at + 5), y: scalar_at(bytes, at + 13) },
                    ),
                    at + 21,
                ),
            )
        }
    } else if bytes[at] == TAG_UPDATE_GAMESTATE {
        match parse_game(bytes, at + 1) {
            Ok((game, end)) => Ok((MessageView::UpdateGamestate(game), end)),
            Err(e) => Err(e),
        }
    } else if bytes[at] == TAG_COMMAND {
        match parse_command(bytes, at + 1) {
            Ok((command, end)) => Ok((MessageView::Command(command), end)),
            Err(e) => Err(e),
        }
    } else {
        Err(DecodeError::UnknownTag)
    }
}

/// The first `limit` bytes of `bytes`, or all of them where they are fewer.
pub open spec fn window(bytes: Seq<u8>, limit: nat) -> Seq<u8> {
    if limit < bytes.len() {
        bytes.take(limit as int)
    } else {
        bytes
    }
}

/// Reads the message at the start of `bytes`, looking at no more than
/// `limit` bytes: the message and its length, or why there is none. A
/// message that has not ended where the bytes end is `Incomplete` while the
/// bytes are fewer than `limit`, and `TooLong` from then on.
pub open spec fn decode_spec(bytes: Seq<u8>, limit: nat) -> Result<
    (MessageView, int),
    DecodeError,
> {
    match parse_message(window(bytes, limit), 0) {
        Ok(done) => Ok(done),
        Err(DecodeError::Incomplete) => if bytes.len() >= limit {
            Err(DecodeError::TooLong)
        } else {
            Err(DecodeError::Incomplete)
        },
        Err(e) => Err(e),
    }
}

// ----- lists, players, games, messages: writing -----

fn put_units(out: &mut Vec<u8>, units: &Vec<Unit>)
    ensures
        final(out)@ == old(out)@ + wire_units(units@),
{
    let mut i: usize = 0;
    while i < units.len()
        invariant
            i <= units.len(),
            out@ == old(out)@ + wire_units(units@.take(i as int)),
        decreases units.len() - i,
    {
        put_unit(out, &units[i]);
        proof {
            let next = units@.take(i + 1);
            assert(next.drop_last() =~= units@.take(i as int));
            assert(out@ =~= old(out)@ + wire_units(next));
        }
        i += 1;
    }
    assert(units@.take(units.len() as int) =~= units@);
}

fn put_bullets(out: &mut Vec<u8>, bullets: &Vec<Bullet>)
    ensures
        final(out)@ == old(out)@ + wire_bullets(bullets@),
{
    let mut i: usize = 0;
    while i < bullets.len()
        invariant
            i <= bullets.len(),
            out@ == old(out)@ + wire_bullets(bullets@.take(i as int)),
        decreases bullets.len() - i,
    {
        put_bullet(out, &bullets[i]);
        proof {
            let next = bullets@.take(i + 1);
            assert(next.drop_last() =~= bullets@.take(i as int));
            assert(out@ =~= old(out)@ + wire_bullets(next));
        }
        i += 1;
    }
    assert(bullets@.take(bullets.len() as int) =~= bullets@);
}

fn put_player(out: &mut Vec<u8>, player: &Player)
    ensures
        final(out)@ == old(out)@ + wire_player(player@),
{
    put_u32(out, player.id.0);
    put_u64(out, player.units.len() as u64);
    put_units(out, &player.units);
    assert(out@ =~= old(out)@ + wire_player(player@));
}

fn put_game(out: &mut Vec<u8>, game: &GameState)
    ensures
        final(out)@ == old(out)@ + wire_game(game@),
{
    put_u64(out, game.players.len() as u64);
    let ghost start = out@;
    let ghost views = game@.players;
    let mut i: usize = 0;
    while i < game.players.len()
        invariant
            i <= game.players.len(),
            views == game@.players,
            out@ == start + wire_players(views.take(i as int)),
        decreases game.players.len() - i,
    {
        put_player(out, &game.players[i]);
        proof {
            let next = views.take(i + 1);
            assert(next.drop_last() =~= views.take(i as int));
            assert(next.last() == game.players[i as int]@);
            assert(out@ =~= start + wire_players(next));
        }
        i += 1;
    }
    assert(views.take(game.players.len() as int) =~= views);
    put_u64(out, game.bullets.len() as u64);
    put_bullets(out, &game.bullets);
    assert(out@ =~= old(out)@ + wire_game(game@));
}

/// The bytes of a snapshot of the game.
pub fn encode_game(game: &GameState) -> (bytes: Vec<u8>)
    ensures
        bytes@ == wire_game(game@),
{
    let mut out: Vec<u8> = Vec::new();
    put_game(&mut out, game);
    assert(out@ =~= wire_game(game@));
    out
}

/// The bytes of a message.
pub fn encode(message: &Message) -> (bytes: Vec<u8>)
    ensures
        bytes@ == wire_message(message@),
{
    let mut out: Vec<u8> = Vec::new();
    match message {
        Message::Error => {
            out.push(TAG_ERROR);
        },
        Message::ClientHello => {
            out.push(TAG_CLIENT_HELLO);
        },
        Message::ClientReconnect(id) => {
            out.push(TAG_CLIENT_RECONNECT);
            put_u32(&mut out, id.0);
        },
        Message::ServerHello(id, world) => {
            out.push(TAG_SERVER_HELLO);
            put_u32(&mut out, id.0);
            put_u64(&mut out, world.x.bits);
            put_u64(&mut out, world.y.bits);
        },
        Message::UpdateGamestate(game) => {
            out.push(TAG_UPDATE_GAMESTATE);
            put_game(&mut out, game);
        },
        Message::Command(command) => {
            out.push(TAG_COMMAND);
            put_command(&mut out, command);
        },
    }
    assert(out@ =~= wire_message(message@));
    out
}

// ----- lists, players, games, messages: reading -----

fn take_units(bytes: &[u8], at: usize, count: u64) -> (taken: Result<
    (Vec<Unit>, usize),
    DecodeError,
>)
    requires
        at <= bytes.len(),
    ensures
        match taken {
            Ok((units, end)) => end <= bytes.len() && parse_units(bytes@, at as int, count as nat)
                == Ok::<(Seq<Unit>, int), DecodeError>((units@, end as int)),
            Err(e) => parse_units(bytes@, at as int, count as nat) == Err::<
                (Seq<Unit>, int),
                DecodeError,
            >(e),
        },
{
    let room = (bytes.len() - at) / UNIT_SIZE;
    if count > room as u64 {
        return Err(DecodeError::Incomplete);
    }
    let mut units: Vec<Unit> = Vec::new();
    let mut pos: usize = at;
    let mut i: u64 = 0;
    while i < count
        invariant
            i <= count,
            at + UNIT_SIZE * count <= bytes.len(),
            pos == at + UNIT_SIZE * i,
            units@ == units_at(bytes@, at as int, i as nat),
        decreases count - i,
    {
        units.push(get_unit(bytes, pos));
        assert(units@ =~= units_at(bytes@, at as int, (i + 1) as nat));
        pos += UNIT_SIZE;
        i += 1;
    }
    Ok((units, pos))
}

fn take_bullets(bytes: &[u8], at: usize, count: u64) -> (taken: Result<
    (Vec<Bullet>, usize),
    DecodeError,
>)
    requires
        at <= bytes.len(),
    ensures
        match taken {
            Ok((bullets, end)) => end <= bytes.len() && parse_bullets(
                bytes@,
                at as int,
                count as nat,
            ) == Ok::<(Seq<Bullet>, int), DecodeError>((bullets@, end as int)),
            Err(e) => parse_bullets(bytes@, at as int, count as nat) == Err::<
                (Seq<Bullet>, int),
                DecodeError,
            >(e),
        },
{
    let room = (bytes.len() - at) / BULLET_SIZE;
    if count > room as u64 {
        return Err(DecodeError::Incomplete);
    }
    let mut bullets: Vec<Bullet> = Vec::new();
    let mut pos: usize = at;
    let mut i: u64 = 0;
    while i < count
        invariant
            i <= count,
            at + BULLET_SIZE * count <= bytes.len(),
            pos == at + BULLET_SIZE * i,
            bullets@ == bullets_at(bytes@, at as int, i as nat),
        decreases count - i,
    {
        bullets.push(get_bullet(bytes, pos));
        assert(bullets@ =~= bullets_at(bytes@, at as int, (i + 1) as nat));
        pos += BULLET_SIZE;
        i += 1;
    }
    Ok((bullets, pos))
}

fn take_player(bytes: &[u8], at: usize) -> (taken: Result<(Player, usize), DecodeError>)
    requires
        at <= bytes.len(),
    ensures
        match taken {
            Ok((player, end)) => end <= bytes.len() && parse_player(bytes@, at as int) == Ok::<
                (PlayerView, int),
                DecodeError,
            >((player@, end as int)),
            Err(e) => parse_player(bytes@, at as int) == Err::<(PlayerView, int), DecodeError>(e),
        },
{
    if bytes.len() - at < 12 {
        return Err(DecodeError::Incomplete);
    }
    let id = ClientId(get_u32(bytes, at));
    let count = get_u64(bytes, at + 4);
    match take_units(bytes, at + 12, count) {
        Ok((units, end)) => Ok((Player { id, units }, end)),
        Err(e) => Err(e),
    }
}

/// Once a player cannot be read, no longer list of players can.
proof fn lemma_parse_players_stuck(bytes: Seq<u8>, at: int, failed: nat, count: nat)
    requires
        failed <= count,
        parse_players(bytes, at, failed) is Err,
    ensures
        parse_players(bytes, at, count) == parse_players(bytes, at, failed),
    decreases count,
{
    if failed < count {
        lemma_parse_players_stuck(bytes, at, failed, (count - 1) as nat);
    }
}

fn take_game(bytes: &[u8], at: usize) -> (taken: Result<(GameState, usize), DecodeError>)
    requires
        at <= bytes.len(),
    ensures
        match taken {
            Ok((game, end)) => end <= bytes.len() && parse_game(bytes@, at as int) == Ok::<
                (GameView, int),
                DecodeError,
            >((game@, end as int)),
            Err(e) => parse_game(bytes@, at as int) == Err::<(GameView, int), DecodeError>(e),
        },
{
    if bytes.len() - at < 8 {
        return Err(DecodeError::Incomplete);
    }
    let count = get_u64(bytes, at);
    let mut players: Vec<Player> = Vec::new();
    let mut pos: usize = at + 8;
    let mut i: u64 = 0;
    assert(players@.map_values(|p: Player| p@) =~= Seq::<PlayerView>::empty());
    while i < count
        invariant
            i <= count,
            pos <= bytes.len(),
            at + 8 <= bytes.len(),
            count == u64_at(bytes@, at as int),
            parse_players(bytes@, at + 8, i as nat) == Ok::<(Seq<PlayerView>, int), DecodeError>(
                (players@.map_values(|p: Player| p@), pos as int),
            ),
        decreases count - i,
    {
        let ghost before = players@.map_values(|p: Player| p@);
        match take_player(bytes, pos) {
            Ok((player, next)) => {
                players.push(player);
                pos = next;
                assert(players@.map_values(|p: Player| p@) =~= before.push(player@));
            },
            Err(e) => {
                proof {
                    assert(parse_players(bytes@, at + 8, (i + 1) as nat) == Err::<
                        (Seq<PlayerView>, int),
                        DecodeError,
                    >(e));
                    lemma_parse_players_stuck(bytes@, at + 8, (i + 1) as nat, count as nat);
                }
                return Err(e);
            },
        }
        i += 1;
    }
    if bytes.len() - pos < 8 {
        return Err(DecodeError::Incomplete);
    }
    let shots = get_u64(bytes, pos);
    match take_bullets(bytes, pos + 8, shots) {
        Ok((bullets, end)) => Ok((GameState { players, bullets }, end)),
        Err(e) => Err(e),
    }
}

fn take_command(bytes: &[u8], at: usize) -> (taken: Result<(Command, usize), DecodeError>)
    requires
        at <= bytes.len(),
    ensures
        match taken {
            Ok((command, end)) => end <= bytes.len() && parse_command(bytes@, at as int) == Ok::<
                (Command, int),
                DecodeError,
            >((command, end as int)),
            Err(e) => parse_command(bytes@, at as int) == Err::<(Command, int), DecodeError>(e),
        },
{
    if bytes.len() - at < 1 {
        return Err(DecodeError::Incomplete);
    }
    let tag = bytes[at];
    if tag == TAG_MOVE {
        if bytes.len() - at < 21 {
            return Err(DecodeError::Incomplete);
        }
        Ok((Command::Move(UnitId(get_u32(bytes, at + 1)), get_vec2(bytes, at + 5)), at + 21))
    } else if tag == TAG_SHOOT {
        if bytes.len() - at < 5 {
            return Err(DecodeError::Incomplete);
        }
        Ok((Command::Shoot(UnitId(get_u32(bytes, at + 1))), at + 5))
    } else {
        Err(DecodeError::UnknownTag)
    }
}

fn take_message(bytes: &[u8], at: usize) -> (taken: Result<(Message, usize), DecodeError>)
    requires
        at <= bytes.len(),
    ensures
        match taken {
            Ok((message, end)) => end <= bytes.len() && parse_message(bytes@, at as int) == Ok::<
                (MessageView, int),
                DecodeError,
            >((message@, end as int)),
            Err(e) => parse_message(bytes@, at as int) == Err::<(MessageView, int), DecodeError>(e),
        },
{
    if bytes.len() - at < 1 {
        return Err(DecodeError::Incomplete);
    }
    let tag = bytes[at];
    if tag == TAG_ERROR {
        Ok((Message::Error, at + 1))
    } else if tag == TAG_CLIENT_HELLO {
        Ok((Message::ClientHello, at + 1))
    } else if tag == TAG_CLIENT_RECONNECT {
        if bytes.len() - at < 5 {
            return Err(DecodeError::Incomplete);
        }
        Ok((Message::ClientReconnect(ClientId(get_u32(bytes, at + 1))), at + 5))
    } else if tag == TAG_SERVER_HELLO {
        if bytes.len() - at < 21 {
            return Err(DecodeError::Incomplete);
        }
        let id = ClientId(get_u32(bytes, at + 1));
        let world = WorldState {
            x: Scalar { bits: get_u64(bytes, at + 5) },
            y: Scalar { bits: get_u64(bytes, at + 13) },
        };
        Ok((Message::ServerHello(id, world), at + 21))
    } else if tag == TAG_UPDATE_GAMESTATE {
        match take_game(bytes, at + 1) {
            Ok((game, end)) => Ok((Message::UpdateGamestate(game), end)),
            Err(e) => Err(e),
        }
    } else if tag == TAG_COMMAND {
        match take_command(bytes, at + 1) {
            Ok((command, end)) => Ok((Message::Command(command), end)),
            Err(e) => Err(e),
        }
    } else {
        Err(DecodeError::UnknownTag)
    }
}

/// Reads the message at the start of `bytes`, looking at no more than
/// `limit` bytes, and says how many bytes it took.
pub fn decode(bytes: &[u8], limit: usize) -> (decoded: Result<(Message, usize), DecodeError>)
    ensures
        match decoded {
            Ok((message, length)) => decode_spec(bytes@, limit as nat) == Ok::<
                (MessageView, int),
                DecodeError,
            >((message@, length as int)),
            Err(e) => decode_spec(bytes@, limit as nat) == Err::<(MessageView, int), DecodeError>(
                e,
            ),
        },
{
    let seen = if limit < bytes.len() {
        slice_subrange(bytes, 0, limit)
    } else {
        bytes
    };
    match take_message(seen, 0) {
        Ok(done) => Ok(done),
        Err(DecodeError::Incomplete) => {
            if bytes.len() >= limit {
                Err(DecodeError::TooLong)
            } else {
                Err(DecodeError::Incomplete)
            }
        },
        Err(e) => Err(e),
    }
}

/// Takes the message at the start of `buffer` off it, looking at no more
/// than `limit` bytes. Where there is no message, the buffer stays as it is.
pub fn take_from(buffer: &mut Vec<u8>, limit: usize) -> (taken: Result<Message, DecodeError>)
    ensures
        match decode_spec(old(buffer)@, limit as nat) {
            Ok((message, length)) => taken matches Ok(m) && m@ == message && final(buffer)@ == old(
                buffer,
            )@.skip(length),
            Err(e) => taken == Err::<Message, DecodeError>(e) && final(buffer)@ == old(buffer)@,
        },
{
    match decode(buffer.as_slice(), limit) {
        Ok((message, length)) => {
            let rest = buffer.split_off(length);
            *buffer = rest;
            Ok(message)
        },
        Err(e) => Err(e),
    }
}

/// Reads the snapshot of a game at the start of `bytes`, and says how many
/// bytes it took.
pub fn decode_game(bytes: &[u8]) -> (decoded: Result<(GameState, usize), DecodeError>)
    ensures
        match decoded {
            Ok((game, length)) => parse_game(bytes@, 0) == Ok::<(GameView, int), DecodeError>(
                (game@, length as int),
            ),
            Err(e) => parse_game(bytes@, 0) == Err::<(GameView, int), DecodeError>(e),
        },
{
    take_game(bytes, 0)
}

// ----- what is written is read back -----

/// Units that stand at a position are read back there, one every
/// [`UNIT_SIZE`] bytes.
pub proof fn lemma_units_at(bytes: Seq<u8>, at: int, units: Seq<Unit>)
    requires
        holds(bytes, at, wire_units(units)),
    ensures
        wire_units(units).len() == UNIT_SIZE * units.len(),
        units_at(bytes, at, units.len()) == units,
    decreases units.len(),
{
    if units.len() > 0 {
        let before = units.drop_last();
        lemma_holds_split(bytes, at, wire_units(before), wire_unit(units.last()));
        lemma_units_at(bytes, at, before);
        lemma_unit_at(bytes, at + UNIT_SIZE * before.len(), units.last());
        assert forall|i: int| 0 <= i < units.len() implies units_at(bytes, at, units.len())[i]
            == units[i] by {
            if i < before.len() {
                assert(units_at(bytes, at, before.len())[i] == before[i]);
            }
        }
    }
    assert(units_at(bytes, at, units.len()) =~= units);
}

/// Bullets that stand at a position are read back there, one every
/// [`BULLET_SIZE`] bytes.
pub proof fn lemma_bullets_at(bytes: Seq<u8>, at: int, bullets: Seq<Bullet>)
    requires
        holds(bytes, at, wire_bullets(bullets)),
    ensures
        wire_bullets(bullets).len() == BULLET_SIZE * bullets.len(),
        bullets_at(bytes, at, bullets.len()) == bullets,
    decreases bullets.len(),
{
    if bullets.len() > 0 {
        let before = bullets.drop_last();
        lemma_holds_split(bytes, at, wire_bullets(before), wire_bullet(bullets.last()));
        lemma_bullets_at(bytes, at, before);
        lemma_bullet_at(bytes, at + BULLET_SIZE * before.len(), bullets.last());
        assert forall|i: int| 0 <= i < bullets.len() implies bullets_at(
            bytes,
            at,
            bullets.len(),
        )[i] == bullets[i] by {
            if i < before.len() {
                assert(bullets_at(bytes, at, before.len())[i] == before[i]);
            }
        }
    }
    assert(bullets_at(bytes, at, bullets.len()) =~= bullets);
}

/// A player that stands at a position is read back there.
pub proof fn lemma_parse_player(bytes: Seq<u8>, at: int, player: PlayerView)
    requires
        holds(bytes, at, wire_player(player)),
        player.units.len() <= u64::MAX,
    ensures
        parse_player(bytes, at) == Ok::<(PlayerView, int), DecodeError>(
            (player, at + wire_player(player).len()),
        ),
{
    let a = wire_u32(player.id.0);
    let b = wire_u64(player.units.len() as u64);
    let c = wire_units(player.units);
    lemma_holds_split(bytes, at, a + b, c);
    lemma_holds_split(bytes, at, a, b);
    lemma_u32_at(bytes, at, player.id.0);
    lemma_u64_at(bytes, at + 4, player.units.len() as u64);
    lemma_units_at(bytes, at + 12, player.units);
}

/// Players that stand at a position are read back there.
pub proof fn lemma_parse_players(bytes: Seq<u8>, at: int, players: Seq<PlayerView>)
    requires
        holds(bytes, at, wire_players(players)),
        forall|p: int| 0 <= p < players.len() ==> (#[trigger] players[p]).units.len() <= u64::MAX,
    ensures
        parse_players(bytes, at, players.len()) == Ok::<(Seq<PlayerView>, int), DecodeError>(
            (players, at + wire_players(players).len()),
        ),
    decreases players.len(),
{
    if players.len() > 0 {
        let before = players.drop_last();
        lemma_holds_split(bytes, at, wire_players(before), wire_player(players.last()));
        lemma_parse_players(bytes, at, before);
        lemma_parse_player(bytes, at + wire_players(before).len(), players.last());
        assert(before.push(players.last()) =~= players);
    } else {
        assert(players =~= Seq::empty());
    }
}

/// A game that stands at a position is read back there.
pub proof fn lemma_parse_game(bytes: Seq<u8>, at: int, game: GameView)
    requires
        holds(bytes, at, wire_game(game)),
        game.fits(),
        game.bullets.len() <= u64::MAX,
    ensures
        parse_game(bytes, at) == Ok::<(GameView, int), DecodeError>(
            (game, at + wire_game(game).len()),
        ),
{
    let a = wire_u64(game.players.len() as u64);
    let b = wire_players(game.players);
    let c = wire_u64(game.bullets.len() as u64);
    let d = wire_bullets(game.bullets);
    lemma_holds_split(bytes, at, a + b + c, d);
    lemma_holds_split(bytes, at, a + b, c);
    lemma_holds_split(bytes, at, a, b);
    lemma_u64_at(bytes, at, game.players.len() as u64);
    lemma_parse_players(bytes, at + 8, game.players);
    let mid = at + 8 + b.len();
    lemma_u64_at(bytes, mid, game.bullets.len() as u64);
    lemma_bullets_at(bytes, mid + 8, game.bullets);
}

/// A command that stands at a position is read back there.
pub proof fn lemma_parse_command(bytes: Seq<u8>, at: int, command: Command)
    requires
        holds(bytes, at, wire_command(command)),
    ensures
        parse_command(bytes, at) == Ok::<(Command, int), DecodeError>(
            (command, at + wire_command(command).len()),
        ),
{
    match command {
        Command::Move(id, target) => {
            lemma_holds_split(bytes, at, seq![TAG_MOVE] + wire_u32(id.0), wire_vec2(target));
            lemma_holds_split(bytes, at, seq![TAG_MOVE], wire_u32(id.0));
            assert(bytes[at] == bytes.subrange(at, at + 1)[0]);
            lemma_u32_at(bytes, at + 1, id.0);
            lemma_vec2_at(bytes, at + 5, target);
        },
        Command::Shoot(id) => {
            lemma_holds_split(bytes, at, seq![TAG_SHOOT], wire_u32(id.0));
            assert(bytes[at] == bytes.subrange(at, at + 1)[0]);
            lemma_u32_at(bytes, at + 1, id.0);
        },
    }
}

/// Whether the lists of a message fit the machine, which holds of the
/// content of every [`Message`].
pub open spec fn fits(message: MessageView) -> bool {
    message matches MessageView::UpdateGamestate(game) ==> game.fits() && game.bullets.len()
        <= usize::MAX
}

/// A message that stands at a position is read back there.
pub proof fn lemma_parse_message(bytes: Seq<u8>, at: int, message: MessageView)
    requires
        holds(bytes, at, wire_message(message)),
        fits(message),
    ensures
        parse_message(bytes, at) == Ok::<(MessageView, int), DecodeError>(
            (message, at + wire_message(message).len()),
        ),
{
    match message {
        MessageView::Error => {
            assert(bytes[at] == bytes.subrange(at, at + 1)[0]);
        },
        MessageView::ClientHello => {
            assert(bytes[at] == bytes.subrange(at, at + 1)[0]);
        },
        MessageView::ClientReconnect(id) => {
            lemma_holds_split(bytes, at, seq![TAG_CLIENT_RECONNECT], wire_u32(id.0));
            assert(bytes[at] == bytes.subrange(at, at + 1)[0]);
            lemma_u32_at(bytes, at + 1, id.0);
        },
        MessageView::ServerHello(id, world) => {
            lemma_auto_spec_u32_to_from_le_bytes();
            lemma_holds_split(
                bytes,
                at,
                seq![TAG_SERVER_HELLO] + wire_u32(id.0),
                wire_world(world),
            );
            lemma_holds_split(bytes, at, seq![TAG_SERVER_HELLO], wire_u32(id.0));
            lemma_holds_split(bytes, at + 5, wire_u64(world.x.bits), wire_u64(world.y.bits));
            assert(bytes[at] == bytes.subrange(at, at + 1)[0]);
            lemma_u32_at(bytes, at + 1, id.0);
            lemma_u64_at(bytes, at + 5, world.x.bits);
            lemma_u64_at(bytes, at + 13, world.y.bits);
        },
        MessageView::UpdateGamestate(game) => {
            lemma_holds_split(bytes, at, seq![TAG_UPDATE_GAMESTATE], wire_game(game));
            assert(bytes[at] == bytes.subrange(at, at + 1)[0]);
            lemma_parse_game(bytes, at + 1, game);
        },
        MessageView::Command(command) => {
            lemma_holds_split(bytes, at, seq![TAG_COMMAND], wire_command(command));
            assert(bytes[at] == bytes.subrange(at, at + 1)[0]);
            lemma_parse_command(bytes, at + 1, command);
        },
    }
}

/// Round trip: the bytes of a message, whatever follows them, are read back
/// as that message and its length, provided the limit admits the message.
pub proof fn lemma_decode_encode(message: MessageView, rest: Seq<u8>, limit: nat)
    requires
        fits(message),
        wire_message(message).len() <= limit,
    ensures
        decode_spec(wire_message(message) + rest, limit) == Ok::<(MessageView, int), DecodeError>(
            (message, wire_message(message).len() as int),
        ),
{
    let wire = wire_message(message);
    let seen = window(wire + rest, limit);
    assert(seen.subrange(0, wire.len() as int) =~= wire);
    lemma_parse_message(seen, 0, message);
}

/// Round trip of a snapshot: the bytes of a game, whatever follows them, are
/// read back as that game and its length.
pub proof fn lemma_decode_encode_game(game: GameView, rest: Seq<u8>)
    requires
        game.fits(),
        game.bullets.len() <= usize::MAX,
    ensures
        parse_game(wire_game(game) + rest, 0) == Ok::<(GameView, int), DecodeError>(
            (game, wire_game(game).len() as int),
        ),
{
    let wire = wire_game(game);
    assert((wire + rest).subrange(0, wire.len() as int) =~= wire);
    lemma_parse_game(wire + rest, 0, game);
}

// ----- what is read was written -----

/// Where two parts stand in `bytes` one after the other, they stand there
/// as one.
pub proof fn lemma_holds_join(bytes: Seq<u8>, at: int, first: Seq<u8>, second: Seq<u8>)
    requires
        holds(bytes, at, first),
        holds(bytes, at + first.len(), second),
    ensures
        holds(bytes, at, first + second),
{
    assert(bytes.subrange(at, at + (first + second).len()) =~= bytes.subrange(
        at,
        at + first.len(),
    ) + bytes.subrange(at + first.len(), at + first.len() + second.len()));
}

pub proof fn lemma_wire_u32_at(bytes: Seq<u8>, at: int)
    requires
        0 <= at,
        at + 4 <= bytes.len(),
    ensures
        holds(bytes, at, wire_u32(u32_at(bytes, at))),
        wire_u32(u32_at(bytes, at)).len() == 4,
{
    lemma_auto_spec_u32_to_from_le_bytes();
    assert(bytes.subrange(at, at + 4).len() == 4);
}

pub proof fn lemma_wire_u64_at(bytes: Seq<u8>, at: int)
    requires
        0 <= at,
        at + 8 <= bytes.len(),
    ensures
        holds(bytes, at, wire_u64(u64_at(bytes, at))),
        wire_u64(u64_at(bytes, at)).len() == 8,
{
    lemma_auto_spec_u64_to_from_le_bytes();
    assert(bytes.subrange(at, at + 8).len() == 8);
}

pub proof fn lemma_wire_vec2_at(bytes: Seq<u8>, at: int)
    requires
        0 <= at,
        at + VEC2_SIZE <= bytes.len(),
    ensures
        holds(bytes, at, wire_vec2(vec2_at(bytes, at))),
        wire_vec2(vec2_at(bytes, at)).len() == VEC2_SIZE,
{
    let v = vec2_at(bytes, at);
    lemma_wire_u64_at(bytes, at);
    lemma_wire_u64_at(bytes, at + 8);
    lemma_holds_join(bytes, at, wire_u64(v.x.bits), wire_u64(v.y.bits));
}

pub proof fn lemma_wire_unit_at(bytes: Seq<u8>, at: int)
    requires
        0 <= at,
        at + UNIT_SIZE <= bytes.len(),
    ensures
        holds(bytes, at, wire_unit(unit_at(bytes, at))),
        wire_unit(unit_at(bytes, at)).len() == UNIT_SIZE,
{
    let unit = unit_at(bytes, at);
    let a = wire_u32(unit.id.0);
    let b = wire_vec2(unit.position);
    let c = wire_u64(unit.angle.bits);
    let d = wire_vec2(unit.speed_vector);
    let e = wire_u64(unit.health);
    lemma_wire_u32_at(bytes, at);
    lemma_wire_vec2_at(bytes, at + 4);
    lemma_wire_u64_at(bytes, at + 20);
    lemma_wire_vec2_at(bytes, at + 28);
    lemma_wire_u64_at(bytes, at + 44);
    lemma_holds_join(bytes, at, a, b);
    lemma_holds_join(bytes, at, a + b, c);
    lemma_holds_join(bytes, at, a + b + c, d);
    lemma_holds_join(bytes, at, a + b + c + d, e);
}

pub proof fn lemma_wire_bullet_at(bytes: Seq<u8>, at: int)
    requires
        0 <= at,
        at + BULLET_SIZE <= bytes.len(),
    ensures
        holds(bytes, at, wire_bullet(bullet_at(bytes, at))),
        wire_bullet(bullet_at(bytes, at)).len() == BULLET_SIZE,
{
    let bullet = bullet_at(bytes, at);
    lemma_wire_vec2_at(bytes, at);
    lemma_wire_vec2_at(bytes, at + 16);
    lemma_holds_join(bytes, at, wire_vec2(bullet.position), wire_vec2(bullet.speed_vector));
}

pub proof fn lemma_wire_units_at(bytes: Seq<u8>, at: int, count: nat)
    requires
        0 <= at,
        at + UNIT_SIZE * count <= bytes.len(),
    ensures
        holds(bytes, at, wire_units(units_at(bytes, at, count))),
        wire_units(units_at(bytes, at, count)).len() == UNIT_SIZE * count,
    decreases count,
{
    let units = units_at(bytes, at, count);
    if count > 0 {
        let before = units_at(bytes, at, (count - 1) as nat);
        assert(units.drop_last() =~= before);
        lemma_wire_units_at(bytes, at, (count - 1) as nat);
        lemma_wire_unit_at(bytes, at + UNIT_SIZE * (count - 1));
        lemma_holds_join(bytes, at, wire_units(before), wire_unit(units.last()));
    } else {
        assert(bytes.subrange(at, at) =~= Seq::empty());
    }
}

pub proof fn lemma_wire_bullets_at(bytes: Seq<u8>, at: int, count: nat)
    requires
        0 <= at,
        at + BULLET_SIZE * count <= bytes.len(),
    ensures
        holds(bytes, at, wire_bullets(bullets_at(bytes, at, count))),
        wire_bullets(bullets_at(bytes, at, count)).len() == BULLET_SIZE * count,
    decreases count,
{
    let bullets = bullets_at(bytes, at, count);
    if count > 0 {
        let before = bullets_at(bytes, at, (count - 1) as nat);
        assert(bullets.drop_last() =~= before);
        lemma_wire_bullets_at(bytes, at, (count - 1) as nat);
        lemma_wire_bullet_at(bytes, at + BULLET_SIZE * (count - 1));
        lemma_holds_join(bytes, at, wire_bullets(before), wire_bullet(bullets.last()));
    } else {
        assert(bytes.subrange(at, at) =~= Seq::empty());
    }
}

/// A player that was read at a position stands there.
pub proof fn lemma_wire_player_at(bytes: Seq<u8>, at: int)
    requires
        0 <= at,
        parse_player(bytes, at) is Ok,
    ensures
        holds(bytes, at, wire_player(parse_player(bytes, at)->Ok_0.0)),
        parse_player(bytes, at)->Ok_0.1 == at + wire_player(parse_player(bytes, at)->Ok_0.0).len(),
{
    let player = parse_player(bytes, at)->Ok_0.0;
    let count = u64_at(bytes, at + 4);
    lemma_wire_u32_at(bytes, at);
    lemma_wire_u64_at(bytes, at + 4);
    lemma_wire_units_at(bytes, at + 12, count as nat);
    assert(player.units.len() as u64 == count);
    let a = wire_u32(player.id.0);
    let b = wire_u64(count);
    lemma_holds_join(bytes, at, a, b);
    lemma_holds_join(bytes, at, a + b, wire_units(player.units));
}

/// Players that were read at a position stand there.
pub proof fn lemma_wire_players_at(bytes: Seq<u8>, at: int, count: nat)
    requires
        0 <= at <= bytes.len(),
        parse_players(bytes, at, count) is Ok,
    ensures
        holds(bytes, at, wire_players(parse_players(bytes, at, count)->Ok_0.0)),
        parse_players(bytes, at, count)->Ok_0.1 == at + wire_players(
            parse_players(bytes, at, count)->Ok_0.0,
        ).len(),
        parse_players(bytes, at, count)->Ok_0.0.len() == count,
    decreases count,
{
    let players = parse_players(bytes, at, count)->Ok_0.0;
    if count > 0 {
        let (before, mid) = parse_players(bytes, at, (count - 1) as nat)->Ok_0;
        lemma_wire_players_at(bytes, at, (count - 1) as nat);
        lemma_wire_player_at(bytes, mid);
        assert(players.drop_last() =~= before);
        lemma_holds_join(bytes, at, wire_players(before), wire_player(players.last()));
    } else {
        assert(bytes.subrange(at, at) =~= Seq::empty());
    }
}

/// A game that was read at a position stands there.
pub proof fn lemma_wire_game_at(bytes: Seq<u8>, at: int)
    requires
        0 <= at,
        parse_game(bytes, at) is Ok,
    ensures
        holds(bytes, at, wire_game(parse_game(bytes, at)->Ok_0.0)),
        parse_game(bytes, at)->Ok_0.1 == at + wire_game(parse_game(bytes, at)->Ok_0.0).len(),
{
    let game = parse_game(bytes, at)->Ok_0.0;
    let count = u64_at(bytes, at);
    lemma_wire_u64_at(bytes, at);
    lemma_wire_players_at(bytes, at + 8, count as nat);
    let mid = parse_players(bytes, at + 8, count as nat)->Ok_0.1;
    let shots = u64_at(bytes, mid);
    lemma_wire_u64_at(bytes, mid);
    lemma_wire_bullets_at(bytes, mid + 8, shots as nat);
    assert(game.players.len() as u64 == count);
    assert(game.bullets.len() as u64 == shots);
    let a = wire_u64(count);
    let b = wire_players(game.players);
    let c = wire_u64(shots);
    lemma_holds_join(bytes, at, a, b);
    lemma_holds_join(bytes, at, a + b, c);
    lemma_holds_join(bytes, at, a + b + c, wire_bullets(game.bullets));
}

/// A command that was read at a position stands there.
pub proof fn lemma_wire_command_at(bytes: Seq<u8>, at: int)
    requires
        0 <= at,
        parse_command(bytes, at) is Ok,
    ensures
        holds(bytes, at, wire_command(parse_command(bytes, at)->Ok_0.0)),
        parse_command(bytes, at)->Ok_0.1 == at + wire_command(
            parse_command(bytes, at)->Ok_0.0,
        ).len(),
{
    assert(bytes.subrange(at, at + 1) =~= seq![bytes[at]]);
    lemma_wire_u32_at(bytes, at + 1);
    match parse_command(bytes, at)->Ok_0.0 {
        Command::Move(id, target) => {
            lemma_wire_vec2_at(bytes, at + 5);
            lemma_holds_join(bytes, at, seq![TAG_MOVE], wire_u32(id.0));
            lemma_holds_join(bytes, at, seq![TAG_MOVE] + wire_u32(id.0), wire_vec2(target));
        },
        Command::Shoot(id) => {
            lemma_holds_join(bytes, at, seq![TAG_SHOOT], wire_u32(id.0));
        },
    }
}

/// A message that was read at a position stands there.
pub proof fn lemma_wire_message_at(bytes: Seq<u8>, at: int)
    requires
        0 <= at,
        parse_message(bytes, at) is Ok,
    ensures
        holds(bytes, at, wire_message(parse_message(bytes, at)->Ok_0.0)),
        parse_message(bytes, at)->Ok_0.1 == at + wire_message(
            parse_message(bytes, at)->Ok_0.0,
        ).len(),
{
    assert(bytes.subrange(at, at + 1) =~= seq![bytes[at]]);
    match parse_message(bytes, at)->Ok_0.0 {
        MessageView::Error => {},
        MessageView::ClientHello => {},
        MessageView::ClientReconnect(id) => {
            lemma_wire_u32_at(bytes, at + 1);
            lemma_holds_join(bytes, at, seq![TAG_CLIENT_RECONNECT], wire_u32(id.0));
        },
        MessageView::ServerHello(id, world) => {
            lemma_wire_u32_at(bytes, at + 1);
            lemma_wire_u64_at(bytes, at + 5);
            lemma_wire_u64_at(bytes, at + 13);
            lemma_holds_join(bytes, at + 5, wire_u64(world.x.bits), wire_u64(world.y.bits));
            lemma_holds_join(bytes, at, seq![TAG_SERVER_HELLO], wire_u32(id.0));
            lemma_holds_join(
                bytes,
                at,
                seq![TAG_SERVER_HELLO] + wire_u32(id.0),
                wire_world(world),
            );
        },
        MessageView::UpdateGamestate(game) => {
            lemma_wire_game_at(bytes, at + 1);
            lemma_holds_join(bytes, at, seq![TAG_UPDATE_GAMESTATE], wire_game(game));
        },
        MessageView::Command(command) => {
            lemma_wire_command_at(bytes, at + 1);
            lemma_holds_join(bytes, at, seq![TAG_COMMAND], wire_command(command));
        },
    }
}

/// Whatever is read is what was written: where bytes are read as a message
/// of some length, that many bytes are the bytes of the message, and they lie
/// within the limit.
pub proof fn lemma_encode_decode(bytes: Seq<u8>, limit: nat)
    requires
        decode_spec(bytes, limit) is Ok,
    ensures
        ({
            let (message, length) = decode_spec(bytes, limit)->Ok_0;
            &&& 0 <= length <= bytes.len()
            &&& length <= limit
            &&& bytes.take(length) == wire_message(message)
        }),
{
    let seen = window(bytes, limit);
    let (message, length) = decode_spec(bytes, limit)->Ok_0;
    lemma_wire_message_at(seen, 0);
    assert(bytes.take(length) =~= seen.subrange(0, length));
}

} // verus!
