use vstd::prelude::*;

pub mod caster;
pub mod enemy;
pub mod fog;
pub mod generator;
pub mod geom;
pub mod grid;
pub mod maze;
pub mod path;
pub mod player;
pub mod render;
pub mod setup;
pub mod world;

pub use caster::Intersect;
pub use enemy::Enemy;
pub use fog::Fog;
pub use grid::Grid;
pub use maze::Maze;
pub use player::Player;
pub use world::{AppState, GameEvent, Pickup, World};

verus! {

} // verus!
