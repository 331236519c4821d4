//! A small text adventure: a world of rooms joined by named directions,
//! a player moving through it, and a command interpreter.

pub mod direction;
pub mod text;
pub mod item;
pub mod room;
pub mod world;
pub mod parse;
pub mod game;
