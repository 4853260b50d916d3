//! The board: its coordinates, its electrodes, and the droplets that sit on it.

pub mod droplet;
pub mod grid;
pub mod gridview;
pub mod location;

pub use self::droplet::{Droplet, DropletId, DropletInfo, ProcessId, SimpleBlob};
pub use self::grid::{Electrode, Grid, Peripheral};
pub use self::gridview::{GridView, Snapshot};
pub use self::location::Location;
