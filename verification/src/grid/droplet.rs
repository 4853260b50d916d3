//! Droplets, their names, and the distance between their footprints.

use vstd::prelude::*;

use super::location::Location;

verus! {

/// Names a client process of the manager.
pub type ProcessId = usize;

/// Names a droplet: a sequence number that is handed out once per session,
/// and the process that owns the droplet.
#[derive(Clone, Copy, Debug, PartialEq, Eq, Hash, Structural)]
pub struct DropletId {
    pub id: usize,
    pub process_id: ProcessId,
}

/// A droplet on the board. `location` is the top-left cell of its footprint,
/// `dimensions` the height and width of the footprint, `volume` a count of
/// whole volume units.
#[derive(Clone, Copy, Debug)]
pub struct Droplet {
    pub id: DropletId,
    pub location: Location,
    pub dimensions: Location,
    pub volume: u64,
    /// Where the router has to bring the droplet; set only while a command is
    /// being planned.
    pub destination: Option<Location>,
    /// Droplets of one group may touch and merge; droplets of different groups
    /// must keep a free cell between them.
    pub collision_group: usize,
    /// A pinned droplet is never moved by the router.
    pub pinned: bool,
}

/// What a client is told of a droplet.
#[derive(Clone, Copy, Debug, PartialEq, Eq, Structural)]
pub struct DropletInfo {
    pub id: DropletId,
    pub location: Location,
    pub dimensions: Location,
    pub volume: u64,
}

/// A footprint with a volume that is not a droplet yet.
#[derive(Clone, Copy, Debug)]
pub struct SimpleBlob {
    pub location: Location,
    pub dimensions: Location,
    pub volume: u64,
}

/// The number of free cells between two intervals of one axis, the first of
/// `a_len` cells from `a_start` and the second of `b_len` cells from `b_start`.
/// Intervals that share a cell have the gap -1.
pub open spec fn axis_gap(a_start: int, a_len: int, b_start: int, b_len: int) -> int {
    if a_start + a_len <= b_start {
        b_start - (a_start + a_len)
    } else if b_start + b_len <= a_start {
        a_start - (b_start + b_len)
    } else {
        -1
    }
}

/// The larger of the two axis gaps between two rectangles, each given by the
/// row and column of its top-left cell, its height and its width. It is
/// positive exactly if a free row or a free column lies between them, so that
/// they neither overlap nor touch, not even at a corner.
pub open spec fn rect_distance(
    y1: int,
    x1: int,
    h1: int,
    w1: int,
    y2: int,
    x2: int,
    h2: int,
    w2: int,
) -> int {
    let gy = axis_gap(y1, h1, y2, h2);
    let gx = axis_gap(x1, w1, x2, w2);
    if gy >= gx {
        gy
    } else {
        gx
    }
}

/// The distance between two footprints, each given by its location and its
/// dimensions.
pub open spec fn footprint_distance(l1: Location, d1: Location, l2: Location, d2: Location) -> int {
    rect_distance(
        l1.y as int,
        l1.x as int,
        d1.y as int,
        d1.x as int,
        l2.y as int,
        l2.x as int,
        d2.y as int,
        d2.x as int,
    )
}

/// Whether two footprints keep the minimum separation.
pub open spec fn footprints_apart(l1: Location, d1: Location, l2: Location, d2: Location) -> bool {
    footprint_distance(l1, d1, l2, d2) > 0
}

/// Whether a footprint of at least one cell lies on a board of `h` rows and `w`
/// columns.
pub open spec fn footprint_within(loc: Location, dim: Location, h: int, w: int) -> bool {
    &&& 1 <= dim.y
    &&& 1 <= dim.x
    &&& 0 <= loc.y
    &&& 0 <= loc.x
    &&& loc.y + dim.y <= h
    &&& loc.x + dim.x <= w
}

/// The bound on the arguments of `axis_gap_of`; every `i32` and every side of
/// a grid lies within it.
pub const AXIS_LIMIT: i64 = 0x1_0000_0000;

/// Computes `axis_gap`.
pub fn axis_gap_of(a_start: i64, a_len: i64, b_start: i64, b_len: i64) -> (g: i64)
    requires
        -AXIS_LIMIT <= a_start <= AXIS_LIMIT,
        -AXIS_LIMIT <= a_len <= AXIS_LIMIT,
        -AXIS_LIMIT <= b_start <= AXIS_LIMIT,
        -AXIS_LIMIT <= b_len <= AXIS_LIMIT,
    ensures
        g == axis_gap(a_start as int, a_len as int, b_start as int, b_len as int),
{
    let a_end: i64 = a_start + a_len;
    let b_end: i64 = b_start + b_len;
    if a_end <= b_start {
        b_start - a_end
    } else if b_end <= a_start {
        a_start - b_end
    } else {
        -1
    }
}

/// Computes `footprint_distance`.
pub fn distance_between(l1: &Location, d1: &Location, l2: &Location, d2: &Location) -> (d: i64)
    ensures
        d == footprint_distance(*l1, *d1, *l2, *d2),
{
    let gy = axis_gap_of(l1.y as i64, d1.y as i64, l2.y as i64, d2.y as i64);
    let gx = axis_gap_of(l1.x as i64, d1.x as i64, l2.x as i64, d2.x as i64);
    if gy >= gx {
        gy
    } else {
        gx
    }
}

impl Droplet {
    /// The distance between the footprints of two droplets: zero or less
    /// where they touch or overlap.
    pub open spec fn distance(self, other: Droplet) -> int {
        footprint_distance(self.location, self.dimensions, other.location, other.dimensions)
    }

    /// The two droplets keep the minimum separation.
    pub open spec fn apart(self, other: Droplet) -> bool {
        self.distance(other) > 0
    }

    /// The two droplets must keep the minimum separation and do not.
    pub open spec fn collides(self, other: Droplet) -> bool {
        self.collision_group != other.collision_group && !self.apart(other)
    }

    /// Whether the cell in row `y` and column `x` belongs to the footprint.
    pub open spec fn covers(self, y: int, x: int) -> bool {
        &&& self.location.y <= y < self.location.y + self.dimensions.y
        &&& self.location.x <= x < self.location.x + self.dimensions.x
    }

    /// Whether the cell in row `y` and column `x` belongs to the footprint.
    pub fn covers_cell(&self, y: usize, x: usize) -> (r: bool)
        ensures
            r == self.covers(y as int, x as int),
    {
        let top = self.location.y as i128;
        let left = self.location.x as i128;
        let bottom = top + self.dimensions.y as i128;
        let right = left + self.dimensions.x as i128;
        top <= y as i128 && (y as i128) < bottom && left <= x as i128 && (x as i128) < right
    }

    /// The footprint has at least one cell and lies on a board of `h` rows and
    /// `w` columns.
    pub open spec fn within(self, h: int, w: int) -> bool {
        footprint_within(self.location, self.dimensions, h, w)
    }

    /// What a process is told of the droplet.
    pub open spec fn info_spec(self) -> DropletInfo {
        DropletInfo {
            id: self.id,
            location: self.location,
            dimensions: self.dimensions,
            volume: self.volume,
        }
    }

    /// A droplet that rests at `location`, in a collision group of its own
    /// that is numbered by the droplet's sequence number.
    pub fn new(id: DropletId, volume: u64, location: Location, dimensions: Location) -> (d:
        Droplet)
        ensures
            d == (Droplet {
                id,
                location,
                dimensions,
                volume,
                destination: None,
                collision_group: id.id,
                pinned: false,
            }),
    {
        Droplet {
            id,
            location,
            dimensions,
            volume,
            destination: None,
            collision_group: id.id,
            pinned: false,
        }
    }

    /// What a process is told of the droplet: its name, where it lies, how
    /// large it is and how much it holds.
    pub fn info(&self) -> (i: DropletInfo)
        ensures
            i == self.info_spec(),
    {
        DropletInfo {
            id: self.id,
            location: self.location,
            dimensions: self.dimensions,
            volume: self.volume,
        }
    }

    /// The distance between the footprints of the two droplets; they keep the
    /// minimum separation exactly if it is positive.
    pub fn collision_distance(&self, other: &Droplet) -> (d: i64)
        ensures
            d == self.distance(*other),
    {
        distance_between(&self.location, &self.dimensions, &other.location, &other.dimensions)
    }
}

impl SimpleBlob {
    /// The resting droplet named `id` that has the blob's position, size
    /// and volume.
    pub open spec fn droplet_spec(self, id: DropletId) -> Droplet {
        Droplet {
            id,
            location: self.location,
            dimensions: self.dimensions,
            volume: self.volume,
            destination: None,
            collision_group: id.id,
            pinned: false,
        }
    }

    /// The droplet with this footprint and volume, under the name `id`.
    pub fn to_droplet(&self, id: DropletId) -> (d: Droplet)
        ensures
            d == self.droplet_spec(id),
    {
        Droplet::new(id, self.volume, self.location, self.dimensions)
    }
}

} // verus!
