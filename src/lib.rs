//! A sliding-token puzzle board shared between a host and its guests: board
//! generation, the movement rule, the room's roster and bids, and the session
//! protocol that keeps every participant's view consistent.

pub mod board;
pub mod strmap;
pub mod net;
pub mod room;
pub mod session;
pub mod rng;
pub mod generate;
