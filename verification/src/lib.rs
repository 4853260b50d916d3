//! Droplet execution engine for a digital microfluidic board.
//!
//! Client operations on logical droplets are turned into commands, placed on
//! the electrode grid, routed one cell per tick, and run against a single
//! shared view of the board.

pub mod command;
pub mod grid;
pub mod plan;
pub mod process;

pub use grid::{
    Droplet, DropletId, DropletInfo, Electrode, Grid, GridView, Location, Peripheral, ProcessId,
    Snapshot,
};
pub use plan::PlanError;
pub use process::{Manager, Process, PuddleError, PuddleResult};
