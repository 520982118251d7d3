//! An agent that finds its way through a maze by what it remembers.
//!
//! The maze is a grid of open and blocked cells with one goal. The agent
//! remembers a cost for every cell, at first the straight-line distance to
//! the goal, and in each step moves to the cheapest cell beside it. Every
//! time it leaves a cell, that cell grows dearer by the memory strength, so
//! the agent does not stay caught in a dead end.
pub mod app;
pub mod cost;
pub mod laws;
pub mod maze;

pub use app::{App, Direction, Step};
pub use cost::{Cost, Strength};
pub use maze::{ConfigError, Maze, MAX_SIDE};
