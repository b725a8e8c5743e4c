//! A multiplayer minesweeper core: a verified board engine (grid generation,
//! flag toggling, flood-fill reveal, client-safe view projection), a
//! verified session registry mapping short random codes to games and
//! players, and the verified wire form of the client-facing cell view.

pub mod board;
mod clock;
pub mod registry;
mod rng;
pub mod wire;
