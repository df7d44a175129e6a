use rpsrtsrs::codec::{decode, decode_game, encode, encode_game, take_from, DecodeError};
use rpsrtsrs::common::{Scalar, Vec2};
use rpsrtsrs::network::{Command, Message};
use rpsrtsrs::state::{Bullet, ClientId, GameState, Player, Unit, UnitId, WorldState};

fn scalar(value: f64) -> Scalar {
    Scalar::from_bits(value.to_bits())
}

fn vec2(x: f64, y: f64) -> Vec2 {
    Vec2::new(scalar(x), scalar(y))
}

fn world() -> WorldState {
    WorldState::new(scalar(800.0), scalar(600.0))
}

fn sample_game() -> GameState {
    let mut game = GameState::new();
    let mut first = Player::new(ClientId(0));
    let mut unit = Unit::new(UnitId(1), vec2(100.0, 100.0));
    unit.angle = scalar(1.25);
    unit.speed_vector = vec2(-0.5, 0.125);
    unit.health = 70_000;
    first.units.push(unit);
    first.units.push(Unit::new(UnitId(2), vec2(300.0, 100.5)));
    let second = Player::new(ClientId(7));
    let mut third = Player::new(ClientId(u32::MAX));
    third.units.push(Unit::new(UnitId(u32::MAX), vec2(f64::MAX, f64::MIN)));
    game.players.push(first);
    game.players.push(second);
    game.players.push(third);
    game.bullets.push(Bullet::new(vec2(1.0, 2.0), vec2(0.1, 0.0)));
    game.bullets.push(Bullet::new(vec2(3.0, 4.0), vec2(0.0, -0.1)));
    game
}

fn round_trip(message: Message) {
    let bytes = encode(&message);
    assert_eq!(decode(&bytes, 1 << 20), Ok((message.clone(), bytes.len())));
    // what follows the message is left alone
    let mut longer = bytes.clone();
    longer.extend_from_slice(&[1, 2, 3]);
    assert_eq!(decode(&longer, 1 << 20), Ok((message.clone(), bytes.len())));
    // a limit of exactly the length admits the message
    assert_eq!(decode(&longer, bytes.len()), Ok((message.clone(), bytes.len())));
    // every proper prefix is incomplete
    for cut in 0..bytes.len() {
        assert_eq!(decode(&bytes[..cut], 1 << 20), Err(DecodeError::Incomplete));
        assert_eq!(decode(&bytes, cut), Err(DecodeError::TooLong));
    }
}

#[test]
fn round_trip_client_hello() {
    round_trip(Message::ClientHello);
}

#[test]
fn round_trip_error() {
    round_trip(Message::Error);
}

#[test]
fn round_trip_client_reconnect() {
    round_trip(Message::ClientReconnect(ClientId(7)));
}

#[test]
fn round_trip_server_hello() {
    round_trip(Message::ServerHello(ClientId(3), world()));
}

#[test]
fn round_trip_move() {
    round_trip(Message::Command(Command::Move(UnitId(2), vec2(10.0, 20.0))));
}

#[test]
fn round_trip_shoot() {
    round_trip(Message::Command(Command::Shoot(UnitId(2))));
}

#[test]
fn round_trip_update_gamestate() {
    round_trip(Message::UpdateGamestate(sample_game()));
    round_trip(Message::UpdateGamestate(GameState::new()));
}

#[test]
fn round_trip_of_a_not_a_number_keeps_the_bits() {
    let odd = Scalar::from_bits(0x7ff8_0000_0000_1234);
    round_trip(Message::Command(Command::Move(UnitId(0), Vec2::new(odd, scalar(-0.0)))));
}

#[test]
fn round_trip_snapshot() {
    let game = sample_game();
    let bytes = encode_game(&game);
    assert_eq!(decode_game(&bytes), Ok((game.clone(), bytes.len())));
    let mut longer = bytes.clone();
    longer.push(9);
    assert_eq!(decode_game(&longer), Ok((game, bytes.len())));
    for cut in 0..bytes.len() {
        assert_eq!(decode_game(&bytes[..cut]), Err(DecodeError::Incomplete));
    }
}

#[test]
fn layout_of_the_small_messages() {
    assert_eq!(encode(&Message::Error), vec![0]);
    assert_eq!(encode(&Message::ClientHello), vec![1]);
    assert_eq!(encode(&Message::ClientReconnect(ClientId(7))), vec![2, 7, 0, 0, 0]);
    assert_eq!(
        encode(&Message::ClientReconnect(ClientId(0x0403_0201))),
        vec![2, 1, 2, 3, 4]
    );
    assert_eq!(encode(&Message::Command(Command::Shoot(UnitId(2)))), vec![5, 1, 2, 0, 0, 0]);
}

#[test]
fn layout_of_server_hello() {
    let mut expected = vec![3u8, 3, 0, 0, 0];
    expected.extend_from_slice(&800.0f64.to_bits().to_le_bytes());
    expected.extend_from_slice(&600.0f64.to_bits().to_le_bytes());
    assert_eq!(encode(&Message::ServerHello(ClientId(3), world())), expected);
    assert_eq!(expected.len(), 21);
}

#[test]
fn layout_of_move() {
    let mut expected = vec![5u8, 0, 2, 0, 0, 0];
    expected.extend_from_slice(&10.0f64.to_bits().to_le_bytes());
    expected.extend_from_slice(&20.0f64.to_bits().to_le_bytes());
    assert_eq!(
        encode(&Message::Command(Command::Move(UnitId(2), vec2(10.0, 20.0)))),
        expected
    );
}

#[test]
fn layout_of_a_snapshot() {
    let mut game = GameState::new();
    let mut player = Player::new(ClientId(9));
    let mut unit = Unit::new(UnitId(5), vec2(1.0, 2.0));
    unit.angle = scalar(3.0);
    unit.speed_vector = vec2(4.0, 5.0);
    unit.health = 6;
    player.units.push(unit);
    game.players.push(player);
    game.bullets.push(Bullet::new(vec2(7.0, 8.0), vec2(9.0, 10.0)));

    let mut expected = Vec::new();
    expected.extend_from_slice(&1u64.to_le_bytes());
    expected.extend_from_slice(&9u32.to_le_bytes());
    expected.extend_from_slice(&1u64.to_le_bytes());
    expected.extend_from_slice(&5u32.to_le_bytes());
    for value in [1.0f64, 2.0, 3.0, 4.0, 5.0] {
        expected.extend_from_slice(&value.to_bits().to_le_bytes());
    }
    expected.extend_from_slice(&6u64.to_le_bytes());
    expected.extend_from_slice(&1u64.to_le_bytes());
    for value in [7.0f64, 8.0, 9.0, 10.0] {
        expected.extend_from_slice(&value.to_bits().to_le_bytes());
    }
    assert_eq!(encode_game(&game), expected);
    assert_eq!(expected.len(), 8 + 4 + 8 + 52 + 8 + 32);

    let mut message = vec![4u8];
    message.extend_from_slice(&expected);
    assert_eq!(encode(&Message::UpdateGamestate(game)), message);
}

#[test]
fn empty_input_is_incomplete() {
    assert_eq!(decode(&[], 1024), Err(DecodeError::Incomplete));
    assert_eq!(decode_game(&[]), Err(DecodeError::Incomplete));
}

#[test]
fn unknown_tags_are_rejected() {
    assert_eq!(decode(&[6], 1024), Err(DecodeError::UnknownTag));
    assert_eq!(decode(&[255, 0, 0, 0, 0], 1024), Err(DecodeError::UnknownTag));
    assert_eq!(decode(&[5, 2, 0, 0, 0, 0], 1024), Err(DecodeError::UnknownTag));
}

#[test]
fn message_beyond_the_limit_is_too_long() {
    let bytes = encode(&Message::UpdateGamestate(sample_game()));
    assert!(bytes.len() > 100);
    assert_eq!(decode(&bytes, 100), Err(DecodeError::TooLong));
    assert_eq!(decode(&bytes[..100], 100), Err(DecodeError::TooLong));
    assert_eq!(decode(&bytes[..99], 100), Err(DecodeError::Incomplete));
    assert_eq!(decode(&[2, 7], 0), Err(DecodeError::TooLong));
}

#[test]
fn hello_messages_fit_the_limit_of_the_handshake() {
    assert_eq!(decode(&encode(&Message::ClientHello), 1024), Ok((Message::ClientHello, 1)));
    assert_eq!(
        decode(&encode(&Message::ClientReconnect(ClientId(u32::MAX))), 1024),
        Ok((Message::ClientReconnect(ClientId(u32::MAX)), 5))
    );
}

#[test]
fn a_count_without_its_items_is_incomplete() {
    // a snapshot that announces more players than any input can hold
    let mut bytes = vec![4u8];
    bytes.extend_from_slice(&u64::MAX.to_le_bytes());
    assert_eq!(decode(&bytes, 1 << 20), Err(DecodeError::Incomplete));
    // a player that announces more units than follow
    let mut bytes = Vec::new();
    bytes.extend_from_slice(&1u64.to_le_bytes());
    bytes.extend_from_slice(&0u32.to_le_bytes());
    bytes.extend_from_slice(&u64::MAX.to_le_bytes());
    bytes.extend_from_slice(&[0u8; 200]);
    assert_eq!(decode_game(&bytes), Err(DecodeError::Incomplete));
}

#[test]
fn take_from_takes_message_after_message() {
    let first = Message::ClientReconnect(ClientId(7));
    let second = Message::Command(Command::Shoot(UnitId(2)));
    let mut buffer = encode(&first);
    buffer.extend_from_slice(&encode(&second));
    buffer.push(5);
    assert_eq!(take_from(&mut buffer, 1024), Ok(first));
    assert_eq!(buffer, vec![5, 1, 2, 0, 0, 0, 5]);
    assert_eq!(take_from(&mut buffer, 1024), Ok(second));
    assert_eq!(buffer, vec![5]);
    assert_eq!(take_from(&mut buffer, 1024), Err(DecodeError::Incomplete));
    assert_eq!(buffer, vec![5]);
}

#[test]
fn take_from_leaves_the_buffer_on_failure() {
    let mut buffer = vec![9, 1, 2];
    assert_eq!(take_from(&mut buffer, 1024), Err(DecodeError::UnknownTag));
    assert_eq!(buffer, vec![9, 1, 2]);
    let mut buffer = vec![2, 1, 2, 3, 4];
    assert_eq!(take_from(&mut buffer, 4), Err(DecodeError::TooLong));
    assert_eq!(buffer, vec![2, 1, 2, 3, 4]);
    let mut buffer = Vec::new();
    assert_eq!(take_from(&mut buffer, 4), Err(DecodeError::Incomplete));
}
