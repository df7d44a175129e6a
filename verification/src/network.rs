//! Network protocol.
//!
//! Everything related to the network protocol between the server and the
//! clients.
use vstd::prelude::*;
use crate::common::Vec2;
use crate::state::{ClientId, GameState, GameView, UnitId, WorldState};

verus! {

/// Commands alter the game state.
///
/// A command is sent from the client to the server. Examples include the
/// movement of a unit or the decision to attack another unit.
#[derive(Clone, Copy, Debug, PartialEq, Eq, Structural)]
pub enum Command {
    /// Move command with unit ID and target
    Move(UnitId, Vec2),
    /// Let the unit shoot
    Shoot(UnitId),
}

impl Command {
    /// The unit that the command is given to.
    pub fn unit_id(&self) -> (id: UnitId)
        ensures
            id == match *self {
                Command::Move(id, _) => id,
                Command::Shoot(id) => id,
            },
    {
        match self {
            Command::Move(id, _) => *id,
            Command::Shoot(id) => *id,
        }
    }
}

/// Primary message type sent between server and client.
///
/// This includes connection buildup and game state transfer.
#[derive(Clone, Debug, PartialEq, Eq)]
pub enum Message {
    Error,
    ClientHello,
    ClientReconnect(ClientId),
    ServerHello(ClientId, WorldState),
    UpdateGamestate(GameState),
    Command(Command),
}

/// The mathematical content of a [`Message`].
pub enum MessageView {
    Error,
    ClientHello,
    ClientReconnect(ClientId),
    ServerHello(ClientId, WorldState),
    UpdateGamestate(GameView),
    Command(Command),
}

impl View for Message {
    type V = MessageView;

    open spec fn view(&self) -> MessageView {
        match *self {
            Message::Error => MessageView::Error,
            Message::ClientHello => MessageView::ClientHello,
            Message::ClientReconnect(id) => MessageView::ClientReconnect(id),
            Message::ServerHello(id, world) => MessageView::ServerHello(id, world),
            Message::UpdateGamestate(game) => MessageView::UpdateGamestate(game@),
            Message::Command(command) => MessageView::Command(command),
        }
    }
}

} // verus!
