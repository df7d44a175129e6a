use rpsrtsrs::codec::DecodeError;
use rpsrtsrs::common::{Scalar, Vec2};
use rpsrtsrs::network::{Command, Message};
use rpsrtsrs::server::{
    handle_command, handshake, join, receive, Aim, ConnState, Exhausted, Greeting, IdGenerator,
    Reception, BROADCAST_MS, MESSAGE_LIMIT, SPAWN_ATTEMPTS, TICK_MS, UNITS_PER_PLAYER,
};
use rpsrtsrs::state::{Bullet, ClientId, GameState, Player, Unit, UnitId, WorldState};
use rpsrtsrs::targets::TargetMap;

fn scalar(value: f64) -> Scalar {
    Scalar::from_bits(value.to_bits())
}

fn vec2(x: f64, y: f64) -> Vec2 {
    Vec2::new(scalar(x), scalar(y))
}

fn world() -> WorldState {
    WorldState::new(scalar(800.0), scalar(600.0))
}

fn four_spots() -> Vec<Option<Vec2>> {
    vec![
        Some(vec2(100.0, 100.0)),
        Some(vec2(300.0, 100.0)),
        Some(vec2(100.0, 300.0)),
        Some(vec2(300.0, 300.0)),
    ]
}

fn no_aim() -> Aim {
    Aim { target: vec2(0.0, 0.0), headings: vec![], bullets: vec![] }
}

fn game_with_unit(id: u32) -> GameState {
    let mut game = GameState::new();
    let mut player = Player::new(ClientId(0));
    player.units.push(Unit::new(UnitId(id), vec2(100.0, 100.0)));
    game.players.push(player);
    game
}

#[test]
fn constants_of_the_server() {
    assert_eq!(UNITS_PER_PLAYER, 4);
    assert_eq!(SPAWN_ATTEMPTS, 42);
    assert_eq!(MESSAGE_LIMIT, 1024);
    assert_eq!(TICK_MS, 5);
    assert_eq!(BROADCAST_MS, 10);
}

#[test]
fn ids_count_up_from_zero() {
    let mut ids = IdGenerator::new();
    assert_eq!(ids.next(), Some(0));
    assert_eq!(ids.next(), Some(1));
    assert_eq!(ids.next(), Some(2));
    assert!(ids.has(1));
    assert!(ids.has(u32::MAX - 2));
    assert!(!ids.has(u32::MAX - 1));
    assert!(IdGenerator::new().has(0));
}

#[test]
fn ids_run_out_after_the_last() {
    let mut ids = IdGenerator::starting_at(u32::MAX - 1);
    assert!(ids.has(2));
    assert!(!ids.has(3));
    assert_eq!(ids.next(), Some(u32::MAX - 1));
    assert!(ids.has(1));
    assert_eq!(ids.next(), Some(u32::MAX));
    assert!(!ids.has(1));
    assert!(ids.has(0));
    assert_eq!(ids.next(), None);
    assert_eq!(ids.next(), None);
}

#[test]
fn new_generator_has_all_identifiers() {
    let mut ids = IdGenerator::new();
    assert!(ids.has(u32::MAX));
    ids.next();
    assert!(ids.has(u32::MAX));
    ids.next();
    assert!(!ids.has(u32::MAX));
}

#[test]
fn client_hello_creates_player_zero_with_four_units() {
    let mut game = GameState::new();
    let mut client_ids = IdGenerator::new();
    let mut unit_ids = IdGenerator::new();
    let greeting = handshake(
        &mut game,
        &mut client_ids,
        &mut unit_ids,
        &world(),
        &Ok(Message::ClientHello),
        &four_spots(),
    );
    assert_eq!(
        greeting,
        Ok(Greeting {
            reply: Some(Message::ServerHello(ClientId(0), world())),
            state: ConnState::Active,
        })
    );
    assert_eq!(game.players.len(), 1);
    assert_eq!(game.players[0].id, ClientId(0));
    assert_eq!(game.players[0].units.len(), 4);
    for (k, unit) in game.players[0].units.iter().enumerate() {
        assert_eq!(unit.id, UnitId(k as u32));
        assert_eq!(Some(unit.position), four_spots()[k]);
        assert_eq!(unit.health, 100_000);
        let x = f64::from_bits(unit.position.x.to_bits());
        let y = f64::from_bits(unit.position.y.to_bits());
        assert!(0.0 <= x && x <= 800.0 && 0.0 <= y && y <= 600.0);
    }
    assert!(game.bullets.is_empty());
    assert_eq!(client_ids.next(), Some(1));
    assert_eq!(unit_ids.next(), Some(4));
}

#[test]
fn second_hello_gets_the_next_identifiers() {
    let mut game = GameState::new();
    let mut client_ids = IdGenerator::new();
    let mut unit_ids = IdGenerator::new();
    assert_eq!(join(&mut game, &mut client_ids, &mut unit_ids, &four_spots()), Ok(ClientId(0)));
    assert_eq!(join(&mut game, &mut client_ids, &mut unit_ids, &four_spots()), Ok(ClientId(1)));
    assert_eq!(game.players.len(), 2);
    let ids: Vec<u32> = game.players[1].units.iter().map(|u| u.id.0).collect();
    assert_eq!(ids, vec![4, 5, 6, 7]);
}

#[test]
fn unit_without_spot_is_left_out_and_its_identifier_spent() {
    let mut game = GameState::new();
    let mut client_ids = IdGenerator::new();
    let mut unit_ids = IdGenerator::new();
    let spots = vec![Some(vec2(1.0, 1.0)), None, Some(vec2(2.0, 2.0))];
    assert_eq!(join(&mut game, &mut client_ids, &mut unit_ids, &spots), Ok(ClientId(0)));
    let ids: Vec<u32> = game.players[0].units.iter().map(|u| u.id.0).collect();
    assert_eq!(ids, vec![0, 2]);
    assert_eq!(game.players[0].units[1].position, vec2(2.0, 2.0));
    assert_eq!(unit_ids.next(), Some(4));
}

#[test]
fn spots_beyond_the_fourth_are_ignored() {
    let mut game = GameState::new();
    let mut client_ids = IdGenerator::new();
    let mut unit_ids = IdGenerator::new();
    let mut spots = four_spots();
    spots.push(Some(vec2(5.0, 5.0)));
    assert_eq!(join(&mut game, &mut client_ids, &mut unit_ids, &spots), Ok(ClientId(0)));
    assert_eq!(game.players[0].units.len(), 4);
}

#[test]
fn join_without_client_ids_fails() {
    let mut game = GameState::new();
    let mut client_ids = IdGenerator::starting_at(u32::MAX);
    client_ids.next();
    let mut unit_ids = IdGenerator::new();
    assert_eq!(
        join(&mut game, &mut client_ids, &mut unit_ids, &four_spots()),
        Err(Exhausted::ClientIds)
    );
    assert_eq!(game, GameState::new());
    assert_eq!(unit_ids.next(), Some(0));
}

#[test]
fn join_without_unit_ids_fails() {
    let mut game = GameState::new();
    let mut client_ids = IdGenerator::new();
    let mut unit_ids = IdGenerator::starting_at(u32::MAX - 2);
    let greeting = handshake(
        &mut game,
        &mut client_ids,
        &mut unit_ids,
        &world(),
        &Ok(Message::ClientHello),
        &four_spots(),
    );
    assert_eq!(greeting, Err(Exhausted::UnitIds));
    assert_eq!(game, GameState::new());
    assert_eq!(client_ids.next(), Some(0));
    assert_eq!(unit_ids.next(), Some(u32::MAX - 2));
}

#[test]
fn join_with_the_last_four_unit_ids() {
    let mut game = GameState::new();
    let mut client_ids = IdGenerator::starting_at(u32::MAX);
    let mut unit_ids = IdGenerator::starting_at(u32::MAX - 3);
    assert_eq!(
        join(&mut game, &mut client_ids, &mut unit_ids, &four_spots()),
        Ok(ClientId(u32::MAX))
    );
    assert_eq!(game.players[0].units[3].id, UnitId(u32::MAX));
    assert_eq!(unit_ids.next(), None);
    assert_eq!(client_ids.next(), None);
}

#[test]
fn reconnect_of_an_unknown_player_is_an_error() {
    let mut game = GameState::new();
    let mut client_ids = IdGenerator::new();
    let mut unit_ids = IdGenerator::new();
    join(&mut game, &mut client_ids, &mut unit_ids, &four_spots()).unwrap();
    let before = game.clone();
    let greeting = handshake(
        &mut game,
        &mut client_ids,
        &mut unit_ids,
        &world(),
        &Ok(Message::ClientReconnect(ClientId(99))),
        &vec![],
    );
    assert_eq!(
        greeting,
        Ok(Greeting { reply: Some(Message::Error), state: ConnState::Closed })
    );
    assert_eq!(game, before);
    assert_eq!(client_ids.next(), Some(1));
}

#[test]
fn reconnect_of_a_known_player_is_welcomed() {
    let mut game = GameState::new();
    let mut client_ids = IdGenerator::new();
    let mut unit_ids = IdGenerator::new();
    join(&mut game, &mut client_ids, &mut unit_ids, &four_spots()).unwrap();
    let before = game.clone();
    let greeting = handshake(
        &mut game,
        &mut client_ids,
        &mut unit_ids,
        &world(),
        &Ok(Message::ClientReconnect(ClientId(0))),
        &four_spots(),
    );
    assert_eq!(
        greeting,
        Ok(Greeting {
            reply: Some(Message::ServerHello(ClientId(0), world())),
            state: ConnState::Active,
        })
    );
    assert_eq!(game, before);
    assert_eq!(unit_ids.next(), Some(4));
}

#[test]
fn any_other_first_message_is_an_error() {
    let others = vec![
        Message::Error,
        Message::ServerHello(ClientId(0), world()),
        Message::UpdateGamestate(GameState::new()),
        Message::Command(Command::Shoot(UnitId(0))),
    ];
    for message in others {
        let mut game = GameState::new();
        let mut client_ids = IdGenerator::new();
        let mut unit_ids = IdGenerator::new();
        let greeting = handshake(
            &mut game,
            &mut client_ids,
            &mut unit_ids,
            &world(),
            &Ok(message),
            &four_spots(),
        );
        assert_eq!(
            greeting,
            Ok(Greeting { reply: Some(Message::Error), state: ConnState::Closed })
        );
        assert_eq!(game, GameState::new());
    }
}

#[test]
fn unreadable_first_message_closes_without_reply() {
    for error in [DecodeError::Incomplete, DecodeError::UnknownTag, DecodeError::TooLong] {
        let mut game = GameState::new();
        let mut client_ids = IdGenerator::new();
        let mut unit_ids = IdGenerator::new();
        let greeting = handshake(
            &mut game,
            &mut client_ids,
            &mut unit_ids,
            &world(),
            &Err(error),
            &four_spots(),
        );
        assert_eq!(greeting, Ok(Greeting { reply: None, state: ConnState::Closed }));
        assert_eq!(game, GameState::new());
    }
}

#[test]
fn receive_hands_out_commands() {
    let command = Command::Move(UnitId(2), vec2(10.0, 20.0));
    assert_eq!(
        receive(&Ok(Message::Command(command))),
        Reception { command: Some(command), reply: None, state: ConnState::Active }
    );
}

#[test]
fn receive_rejects_other_messages() {
    for message in [Message::Error, Message::ClientHello, Message::ClientReconnect(ClientId(1))] {
        assert_eq!(
            receive(&Ok(message)),
            Reception { command: None, reply: Some(Message::Error), state: ConnState::Closed }
        );
    }
}

#[test]
fn receive_stops_on_unreadable_bytes() {
    assert_eq!(
        receive(&Err(DecodeError::UnknownTag)),
        Reception { command: None, reply: None, state: ConnState::Closed }
    );
}

#[test]
fn move_turns_the_unit_and_sets_its_target() {
    let mut game = game_with_unit(2);
    let mut targets = TargetMap::new();
    let aim = Aim { target: vec2(800.0, 20.0), headings: vec![scalar(0.25)], bullets: vec![] };
    handle_command(&mut game, &mut targets, &Command::Move(UnitId(2), vec2(900.0, 20.0)), &aim);
    assert_eq!(game.players[0].units[0].angle, scalar(0.25));
    assert_eq!(game.players[0].units[0].position, vec2(100.0, 100.0));
    assert_eq!(targets.get(UnitId(2)), Some(vec2(800.0, 20.0)));
    assert_eq!(targets.len(), 1);
}

#[test]
fn same_move_twice_gives_the_same_entry() {
    let mut game = game_with_unit(2);
    let mut targets = TargetMap::new();
    let command = Command::Move(UnitId(2), vec2(10.0, 20.0));
    let aim = Aim { target: vec2(10.0, 20.0), headings: vec![scalar(3.5)], bullets: vec![] };
    handle_command(&mut game, &mut targets, &command, &aim);
    let once = game.clone();
    handle_command(&mut game, &mut targets, &command, &aim);
    assert_eq!(game, once);
    assert_eq!(targets.len(), 1);
    assert_eq!(targets.get(UnitId(2)), Some(vec2(10.0, 20.0)));
}

#[test]
fn later_move_overwrites_the_target() {
    let mut game = game_with_unit(2);
    let mut targets = TargetMap::new();
    let first = Aim { target: vec2(10.0, 20.0), headings: vec![scalar(3.5)], bullets: vec![] };
    let second = Aim { target: vec2(30.0, 40.0), headings: vec![scalar(1.5)], bullets: vec![] };
    handle_command(&mut game, &mut targets, &Command::Move(UnitId(2), vec2(10.0, 20.0)), &first);
    handle_command(&mut game, &mut targets, &Command::Move(UnitId(2), vec2(30.0, 40.0)), &second);
    assert_eq!(targets.len(), 1);
    assert_eq!(targets.get(UnitId(2)), Some(vec2(30.0, 40.0)));
    assert_eq!(game.players[0].units[0].angle, scalar(1.5));
}

#[test]
fn move_of_an_unknown_unit_is_ignored() {
    let mut game = game_with_unit(2);
    let before = game.clone();
    let mut targets = TargetMap::new();
    let aim = Aim { target: vec2(10.0, 20.0), headings: vec![scalar(3.5)], bullets: vec![] };
    handle_command(&mut game, &mut targets, &Command::Move(UnitId(7), vec2(10.0, 20.0)), &aim);
    assert_eq!(game, before);
    assert_eq!(targets.len(), 0);
    assert_eq!(targets.get(UnitId(7)), None);
}

#[test]
fn shoot_command_adds_the_bullet() {
    let mut game = game_with_unit(2);
    let mut targets = TargetMap::new();
    let shot = Bullet::new(vec2(150.0, 100.0), vec2(0.1, 0.0));
    let aim = Aim { target: vec2(0.0, 0.0), headings: vec![], bullets: vec![shot] };
    handle_command(&mut game, &mut targets, &Command::Shoot(UnitId(2)), &aim);
    assert_eq!(game.bullets, vec![shot]);
    assert_eq!(targets.len(), 0);
    assert_eq!(game.players[0].units[0].angle, scalar(0.0));
}

#[test]
fn shoot_command_for_an_unknown_unit_is_ignored() {
    let mut game = game_with_unit(2);
    let before = game.clone();
    let mut targets = TargetMap::new();
    let shot = Bullet::new(vec2(150.0, 100.0), vec2(0.1, 0.0));
    let aim = Aim { target: vec2(0.0, 0.0), headings: vec![], bullets: vec![shot] };
    handle_command(&mut game, &mut targets, &Command::Shoot(UnitId(3)), &aim);
    assert_eq!(game, before);
    handle_command(&mut game, &mut targets, &Command::Shoot(UnitId(2)), &no_aim());
    assert_eq!(game, before);
}

#[test]
fn identifiers_stay_unique_over_joins_and_ticks() {
    let mut game = GameState::new();
    let mut client_ids = IdGenerator::new();
    let mut unit_ids = IdGenerator::new();
    for _ in 0..5 {
        join(&mut game, &mut client_ids, &mut unit_ids, &four_spots()).unwrap();
    }
    game.players[1].units[2].health = 0;
    game.players[3].units[0].health = 0;
    game.update(&vec![]);
    let mut units: Vec<u32> = Vec::new();
    let mut clients: Vec<u32> = Vec::new();
    for player in game.players.iter() {
        clients.push(player.id.0);
        for unit in player.units.iter() {
            units.push(unit.id.0);
        }
    }
    assert_eq!(clients, vec![0, 1, 2, 3, 4]);
    assert_eq!(units, vec![0, 1, 2, 3, 4, 5, 7, 8, 9, 10, 11, 13, 14, 15, 16, 17, 18, 19]);
}
