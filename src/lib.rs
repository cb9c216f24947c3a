//! Slydot: The Sunrise Event, the simulation core.
//!
//! Snake-like units occupy chains of grid cells, move within a budget and
//! fight with ranged or melee attacks. This crate holds the board with its
//! reachability overlays, the unit model, the turn and undo state machine,
//! the level grammar and the controllers that drive the game.

pub mod controller;
pub mod game;
pub mod grid;
pub mod level;
pub mod roster;
pub mod unit;

pub use controller::{AiController, Command, Controller, DummyController, LocalController, TeamController};
pub use game::{Game, Team, UndoState};
pub use grid::{Cell, Grid};
pub use level::LoadError;
pub use unit::{Attack, Unit};
