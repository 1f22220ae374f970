//! Game logic of a train-routing puzzle: colours and their mixing, track
//! connections, the behaviour of a track tile as trains pass through it, and
//! the level catalogue with its text format.

pub mod color;
pub mod connection;
pub mod tracktile;
pub mod text;
pub mod tiles;
pub mod levels;
pub mod tracktile_laws;
