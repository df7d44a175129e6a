//! The rules of the client: what it is showing, what the reply to its hello
//! means, and the commands that its selection gives.
use vstd::prelude::*;
use crate::codec::DecodeError;
use crate::common::Vec2;
use crate::network::{Command, Message};
use crate::state::{ClientId, UnitId, WorldState};

pub mod error;
pub mod menu;

verus! {

/// What the client is showing.
#[derive(Clone, Debug)]
pub enum State {
    Menu,
    Error(error::Message),
    Running,
}

/// A key of the keyboard, as far as the client tells keys apart.
#[derive(Clone, Copy, Debug, PartialEq, Eq, Structural)]
pub enum Key {
    Up,
    Down,
    Left,
    Right,
    Return,
    F,
    D,
    Other,
}

/// A button of the mouse, as far as the client tells buttons apart.
#[derive(Clone, Copy, Debug, PartialEq, Eq, Structural)]
pub enum MouseButton {
    Left,
    Right,
    Other,
}

/// A button that was pressed.
#[derive(Clone, Copy, Debug, PartialEq, Eq, Structural)]
pub enum Button {
    Keyboard(Key),
    Mouse(MouseButton),
    Controller,
}

/// What the client is to do after a button was pressed.
#[derive(Clone, Copy, Debug, PartialEq, Eq, Structural)]
pub enum Action {
    Nothing,
    /// Leave the program
    Exit,
    /// Connect to the server and start the game
    Start,
    /// Move the view one step, so that the world slides down
    ScrollUp,
    /// Move the view one step, so that the world slides up
    ScrollDown,
    /// Move the view one step, so that the world slides right
    ScrollLeft,
    /// Move the view one step, so that the world slides left
    ScrollRight,
    /// Let the selected units shoot
    Shoot,
    /// Switch the debug drawing on or off
    ToggleDebug,
    /// Select the units under the cursor
    Select,
    /// Send the selected units to the cursor
    MoveSelected,
}

/// What a button asks for while the menu is shown, with `selected` the entry
/// that is selected when the button is pressed.
pub open spec fn menu_action(selected: menu::Entries, button: Button) -> Action {
    match button {
        Button::Keyboard(Key::Return) => match selected {
            menu::Entries::Start => Action::Start,
            menu::Entries::Exit => Action::Exit,
        },
        _ => Action::Nothing,
    }
}

/// The entry that is selected after a button was pressed while the menu is
/// shown.
pub open spec fn menu_selection(selected: menu::Entries, button: Button) -> menu::Entries {
    match button {
        Button::Keyboard(Key::Up) => selected.following(),
        Button::Keyboard(Key::Down) => selected.following(),
        _ => selected,
    }
}

/// What a button asks for while the game is running.
pub open spec fn running_action(button: Button) -> Action {
    match button {
        Button::Keyboard(Key::Up) => Action::ScrollUp,
        Button::Keyboard(Key::Down) => Action::ScrollDown,
        Button::Keyboard(Key::Left) => Action::ScrollLeft,
        Button::Keyboard(Key::Right) => Action::ScrollRight,
        Button::Keyboard(Key::F) => Action::Shoot,
        Button::Keyboard(Key::D) => Action::ToggleDebug,
        Button::Mouse(MouseButton::Left) => Action::Select,
        Button::Mouse(MouseButton::Right) => Action::MoveSelected,
        _ => Action::Nothing,
    }
}

/// Reacts to a button.
///
/// While the menu is shown, up and down move the selection and return asks
/// for what the selected entry names. While the game is running, a button
/// asks for what [`running_action`] says. While an error is shown, any key of
/// the keyboard leads back to the menu. Nothing else changes.
pub fn on_button_press(state: &mut State, menu: &mut menu::Menu, button: Button) -> (action: Action)
    ensures
        *old(state) is Menu ==> {
            &&& *final(state) is Menu
            &&& final(menu).selected() == menu_selection(old(menu).selected(), button)
            &&& action == menu_action(old(menu).selected(), button)
        },
        *old(state) is Running ==> {
            &&& *final(state) is Running
            &&& final(menu).selected() == old(menu).selected()
            &&& action == running_action(button)
        },
        *old(state) is Error ==> {
            &&& if button is Keyboard {
                *final(state) is Menu
            } else {
                *final(state) == *old(state)
            }
            &&& final(menu).selected() == old(menu).selected()
            &&& action == Action::Nothing
        },
{
    match state {
        State::Menu => match button {
            Button::Keyboard(Key::Up) => {
                menu.previous();
                Action::Nothing
            },
            Button::Keyboard(Key::Down) => {
                menu.next();
                Action::Nothing
            },
            Button::Keyboard(Key::Return) => match menu.get_selected_entry() {
                menu::Entries::Start => Action::Start,
                menu::Entries::Exit => Action::Exit,
            },
            _ => Action::Nothing,
        },
        State::Running => match button {
            Button::Keyboard(Key::Up) => Action::ScrollUp,
            Button::Keyboard(Key::Down) => Action::ScrollDown,
            Button::Keyboard(Key::Left) => Action::ScrollLeft,
            Button::Keyboard(Key::Right) => Action::ScrollRight,
            Button::Keyboard(Key::F) => Action::Shoot,
            Button::Keyboard(Key::D) => Action::ToggleDebug,
            Button::Mouse(MouseButton::Left) => Action::Select,
            Button::Mouse(MouseButton::Right) => Action::MoveSelected,
            _ => Action::Nothing,
        },
        State::Error(_) => {
            match button {
                Button::Keyboard(_) => {
                    *state = State::Menu;
                },
                _ => {},
            }
            Action::Nothing
        },
    }
}

/// What the client shows after it tried to start a game: the running game
/// where it could, and else the reason.
pub fn after_start(outcome: Result<(), String>) -> (state: State)
    ensures
        match outcome {
            Ok(_) => state is Running,
            Err(reason) => state matches State::Error(shown) && shown@ == reason@,
        },
{
    match outcome {
        Ok(_) => State::Running,
        Err(reason) => State::Error(error::Message::new(reason)),
    }
}

/// What the reply to the client's hello means: the identifier that the
/// server gave and the world, where the reply is a `ServerHello`; nothing
/// where it is another message or could not be read.
pub fn server_hello(reply: &Result<Message, DecodeError>) -> (hello: Option<(ClientId, WorldState)>)
    ensures
        hello == match *reply {
            Ok(Message::ServerHello(id, world)) => Some((id, world)),
            _ => None,
        },
{
    match reply {
        Ok(Message::ServerHello(id, world)) => Some((*id, *world)),
        _ => None,
    }
}

/// The commands that move each of the `selected` units to `position`.
pub fn move_selected(selected: &Vec<UnitId>, position: Vec2) -> (commands: Vec<Command>)
    ensures
        commands@ == selected@.map_values(|id: UnitId| Command::Move(id, position)),
{
    let mut commands: Vec<Command> = Vec::new();
    let mut i: usize = 0;
    while i < selected.len()
        invariant
            i <= selected.len(),
            commands@ == selected@.take(i as int).map_values(
                |id: UnitId| Command::Move(id, position),
            ),
        decreases selected.len() - i,
    {
        commands.push(Command::Move(selected[i], position));
        assert(commands@ =~= selected@.take(i + 1).map_values(
            |id: UnitId| Command::Move(id, position),
        ));
        i += 1;
    }
    assert(selected@.take(selected.len() as int) =~= selected@);
    commands
}

/// The commands that let each of the `selected` units shoot.
pub fn shoot(selected: &Vec<UnitId>) -> (commands: Vec<Command>)
    ensures
        commands@ == selected@.map_values(|id: UnitId| Command::Shoot(id)),
{
    let mut commands: Vec<Command> = Vec::new();
    let mut i: usize = 0;
    while i < selected.len()
        invariant
            i <= selected.len(),
            commands@ == selected@.take(i as int).map_values(|id: UnitId| Command::Shoot(id)),
        decreases selected.len() - i,
    {
        commands.push(Command::Shoot(selected[i]));
        assert(commands@ =~= selected@.take(i + 1).map_values(|id: UnitId| Command::Shoot(id)));
        i += 1;
    }
    assert(selected@.take(selected.len() as int) =~= selected@);
    commands
}

} // verus!
