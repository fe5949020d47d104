//! Core of a peer-to-peer networking layer for a multiplayer game.
//!
//! The heart of the crate is the wire protocol: a fixed set of tagged frames
//! carried over either a reliable byte stream or a datagram socket, with a
//! verified encoder and decoder for each transport discipline and a verified
//! model of the two-queue writer multiplexer.  Around it stand the data types
//! that the rest of the game shares: skills, animations, play states.

pub mod animation;
pub mod codec;
pub mod frame;
pub mod msg;
pub mod mux;
pub mod skills;
pub mod state;
