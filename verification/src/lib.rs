//! Authoritative state engine of a small real-time multiplayer game: the
//! entity model, the bookkeeping of the simulation's tick, the command
//! processor, the rules of a connection and the wire format.
//!
//! Geometry is evaluated in double precision outside this crate. Here a
//! double is carried by its bit pattern ([`common::Scalar`]), and every
//! function that depends on a geometric verdict takes that verdict as a plain
//! value.
pub mod client;
pub mod codec;
pub mod common;
pub mod identity;
pub mod network;
pub mod orders;
pub mod scan;
pub mod server;
pub mod state;
pub mod targets;
pub mod tick;
