use rpsrtsrs::client::error::Message as ErrorMessage;
use rpsrtsrs::client::menu::{Entries, Menu};
use rpsrtsrs::client::{
    after_start, move_selected, on_button_press, server_hello, shoot, Action, Button, Key,
    MouseButton, State,
};
use rpsrtsrs::codec::DecodeError;
use rpsrtsrs::common::{Scalar, Vec2};
use rpsrtsrs::network::{Command, Message};
use rpsrtsrs::state::{ClientId, GameState, UnitId, WorldState};

fn vec2(x: f64, y: f64) -> Vec2 {
    Vec2::new(Scalar::from_bits(x.to_bits()), Scalar::from_bits(y.to_bits()))
}

#[test]
fn entries_alternate() {
    let mut entry = Entries::Start;
    entry.next();
    assert_eq!(entry, Entries::Exit);
    entry.next();
    assert_eq!(entry, Entries::Start);
}

#[test]
fn menu_starts_at_start() {
    assert_eq!(Menu::new().get_selected_entry(), Entries::Start);
}

#[test]
fn menu_next_and_previous_move_the_selection() {
    let mut menu = Menu::new();
    menu.next();
    assert_eq!(menu.get_selected_entry(), Entries::Exit);
    menu.next();
    assert_eq!(menu.get_selected_entry(), Entries::Start);
    menu.previous();
    assert_eq!(menu.get_selected_entry(), Entries::Exit);
    menu.previous();
    assert_eq!(menu.get_selected_entry(), Entries::Start);
}

#[test]
fn error_message_keeps_its_text() {
    let shown = ErrorMessage::new(String::from("Could not connect to server"));
    assert_eq!(shown.message(), "Could not connect to server");
}

#[test]
fn state_holds_the_error() {
    let state = State::Error(ErrorMessage::new(String::from("no")));
    assert!(matches!(state, State::Error(ref m) if m.message() == "no"));
    assert!(matches!(State::Menu, State::Menu));
    assert!(matches!(State::Running, State::Running));
}

#[test]
fn server_hello_is_accepted() {
    let world = WorldState::new(
        Scalar::from_bits(800.0f64.to_bits()),
        Scalar::from_bits(600.0f64.to_bits()),
    );
    assert_eq!(
        server_hello(&Ok(Message::ServerHello(ClientId(3), world))),
        Some((ClientId(3), world))
    );
}

#[test]
fn anything_else_is_no_hello() {
    assert_eq!(server_hello(&Ok(Message::Error)), None);
    assert_eq!(server_hello(&Ok(Message::ClientHello)), None);
    assert_eq!(server_hello(&Ok(Message::UpdateGamestate(GameState::new()))), None);
    assert_eq!(server_hello(&Err(DecodeError::Incomplete)), None);
}

#[test]
fn move_selected_gives_one_command_for_each_unit() {
    let selected = vec![UnitId(3), UnitId(1)];
    assert_eq!(
        move_selected(&selected, vec2(10.0, 20.0)),
        vec![
            Command::Move(UnitId(3), vec2(10.0, 20.0)),
            Command::Move(UnitId(1), vec2(10.0, 20.0)),
        ]
    );
    assert!(move_selected(&vec![], vec2(1.0, 1.0)).is_empty());
}

#[test]
fn shoot_gives_one_command_for_each_unit() {
    assert_eq!(
        shoot(&vec![UnitId(3), UnitId(1)]),
        vec![Command::Shoot(UnitId(3)), Command::Shoot(UnitId(1))]
    );
    assert!(shoot(&vec![]).is_empty());
}

#[test]
fn command_names_its_unit() {
    assert_eq!(Command::Move(UnitId(4), vec2(0.0, 0.0)).unit_id(), UnitId(4));
    assert_eq!(Command::Shoot(UnitId(5)).unit_id(), UnitId(5));
}

fn all_buttons() -> Vec<Button> {
    let mut buttons = vec![Button::Controller];
    for key in [Key::Up, Key::Down, Key::Left, Key::Right, Key::Return, Key::F, Key::D, Key::Other]
    {
        buttons.push(Button::Keyboard(key));
    }
    for button in [MouseButton::Left, MouseButton::Right, MouseButton::Other] {
        buttons.push(Button::Mouse(button));
    }
    buttons
}

#[test]
fn menu_keys_move_the_selection() {
    let mut state = State::Menu;
    let mut menu = Menu::new();
    assert_eq!(on_button_press(&mut state, &mut menu, Button::Keyboard(Key::Down)), Action::Nothing);
    assert_eq!(menu.get_selected_entry(), Entries::Exit);
    assert_eq!(on_button_press(&mut state, &mut menu, Button::Keyboard(Key::Up)), Action::Nothing);
    assert_eq!(menu.get_selected_entry(), Entries::Start);
    assert!(matches!(state, State::Menu));
}

#[test]
fn return_asks_for_the_selected_entry() {
    let mut state = State::Menu;
    let mut menu = Menu::new();
    assert_eq!(on_button_press(&mut state, &mut menu, Button::Keyboard(Key::Return)), Action::Start);
    assert!(matches!(state, State::Menu));
    menu.next();
    assert_eq!(on_button_press(&mut state, &mut menu, Button::Keyboard(Key::Return)), Action::Exit);
    assert_eq!(menu.get_selected_entry(), Entries::Exit);
}

#[test]
fn other_buttons_do_nothing_in_the_menu() {
    for button in all_buttons() {
        if matches!(button, Button::Keyboard(Key::Up | Key::Down | Key::Return)) {
            continue;
        }
        let mut state = State::Menu;
        let mut menu = Menu::new();
        assert_eq!(on_button_press(&mut state, &mut menu, button), Action::Nothing);
        assert_eq!(menu.get_selected_entry(), Entries::Start);
        assert!(matches!(state, State::Menu));
    }
}

#[test]
fn buttons_of_the_running_game() {
    let expected = [
        (Button::Keyboard(Key::Up), Action::ScrollUp),
        (Button::Keyboard(Key::Down), Action::ScrollDown),
        (Button::Keyboard(Key::Left), Action::ScrollLeft),
        (Button::Keyboard(Key::Right), Action::ScrollRight),
        (Button::Keyboard(Key::F), Action::Shoot),
        (Button::Keyboard(Key::D), Action::ToggleDebug),
        (Button::Keyboard(Key::Return), Action::Nothing),
        (Button::Keyboard(Key::Other), Action::Nothing),
        (Button::Mouse(MouseButton::Left), Action::Select),
        (Button::Mouse(MouseButton::Right), Action::MoveSelected),
        (Button::Mouse(MouseButton::Other), Action::Nothing),
        (Button::Controller, Action::Nothing),
    ];
    for (button, action) in expected {
        let mut state = State::Running;
        let mut menu = Menu::new();
        assert_eq!(on_button_press(&mut state, &mut menu, button), action);
        assert!(matches!(state, State::Running));
        assert_eq!(menu.get_selected_entry(), Entries::Start);
    }
}

#[test]
fn any_key_leaves_the_error() {
    for button in all_buttons() {
        let mut state = State::Error(ErrorMessage::new(String::from("no")));
        let mut menu = Menu::new();
        menu.next();
        assert_eq!(on_button_press(&mut state, &mut menu, button), Action::Nothing);
        assert_eq!(menu.get_selected_entry(), Entries::Exit);
        if matches!(button, Button::Keyboard(_)) {
            assert!(matches!(state, State::Menu));
        } else {
            assert!(matches!(state, State::Error(ref m) if m.message() == "no"));
        }
    }
}

#[test]
fn after_start_shows_the_game_or_the_reason() {
    assert!(matches!(after_start(Ok(())), State::Running));
    let failed = after_start(Err(String::from("Could not connect to server")));
    assert!(matches!(failed, State::Error(ref m) if m.message() == "Could not connect to server"));
}
