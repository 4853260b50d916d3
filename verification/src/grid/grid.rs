//! The electrode grid and the peripherals that its cells carry.

use vstd::prelude::*;

use super::location::Location;

verus! {

/// The largest height and the largest width of a grid. A grid of this size has
/// 2^30 cells, so that its pins can be numbered in a `u32`.
pub const MAX_DIM: usize = 0x8000;

/// Why a description is not the description of a grid.
#[derive(Clone, Copy, Debug, PartialEq, Eq, Structural)]
pub enum ParseError {
    /// The row `row` is not as long as the first row.
    Ragged { row: usize },
    /// More rows or more columns than a grid can have.
    TooLarge,
    /// The entry `entry` of the peripherals names a cell outside the grid.
    OffGrid { entry: usize },
}

/// A device bound to one electrode.
#[derive(Clone, Debug)]
pub enum Peripheral {
    Heater { pwm_channel: u8, spi_channel: u8 },
    Input { pwm_channel: u8, name: String },
    Output { pwm_channel: u8, name: String },
}

impl Peripheral {
    /// Whether a placeholder of a request can stand for the actual peripheral
    /// `other`: both are of one kind, and ports carry the same name. Channel
    /// numbers play no part.
    pub open spec fn compatible(self, other: Peripheral) -> bool {
        match (self, other) {
            (Peripheral::Heater { .. }, Peripheral::Heater { .. }) => true,
            (Peripheral::Input { name: n1, .. }, Peripheral::Input { name: n2, .. }) => n1@ == n2@,
            (Peripheral::Output { name: n1, .. }, Peripheral::Output { name: n2, .. }) => n1@
                == n2@,
            _ => false,
        }
    }

    /// A peripheral equal to this one.
    pub fn duplicate(&self) -> (r: Peripheral)
        ensures
            r == *self,
    {
        match self {
            Peripheral::Heater { pwm_channel, spi_channel } => Peripheral::Heater {
                pwm_channel: *pwm_channel,
                spi_channel: *spi_channel,
            },
            Peripheral::Input { pwm_channel, name } => Peripheral::Input {
                pwm_channel: *pwm_channel,
                name: name.clone(),
            },
            Peripheral::Output { pwm_channel, name } => Peripheral::Output {
                pwm_channel: *pwm_channel,
                name: name.clone(),
            },
        }
    }

    /// Whether `other` can serve where this peripheral is asked for.
    pub fn is_compatible(&self, other: &Peripheral) -> (r: bool)
        ensures
            r == self.compatible(*other),
    {
        match (self, other) {
            (Peripheral::Heater { .. }, Peripheral::Heater { .. }) => true,
            (Peripheral::Input { name: n1, .. }, Peripheral::Input { name: n2, .. }) => *n1 == *n2,
            (Peripheral::Output { name: n1, .. }, Peripheral::Output { name: n2, .. }) => *n1
                == *n2,
            _ => false,
        }
    }
}

/// One cell of the grid.
#[derive(Clone, Debug)]
pub struct Electrode {
    pub pin: u32,
    pub peripheral: Option<Peripheral>,
}

impl Electrode {
    /// Whether the cell `actual` of the board can serve where a request has the
    /// cell `self`: a cell without a placeholder is served by any cell, a
    /// placeholder only by a compatible peripheral.
    pub open spec fn served_by(self, actual: Electrode) -> bool {
        match self.peripheral {
            None => true,
            Some(wanted) => match actual.peripheral {
                Some(found) => wanted.compatible(found),
                None => false,
            },
        }
    }

    /// Whether the cell `actual` of a board can serve as this cell of a
    /// shape.
    pub fn is_compatible(&self, actual: &Electrode) -> (r: bool)
        ensures
            r == self.served_by(*actual),
    {
        match &self.peripheral {
            None => true,
            Some(wanted) => match &actual.peripheral {
                Some(found) => wanted.is_compatible(found),
                None => false,
            },
        }
    }
}

/// A rectangle of electrodes, stored row by row.
#[derive(Debug)]
pub struct Grid {
    pub rows: Vec<Vec<Electrode>>,
}

impl Grid {
    /// The number of rows.
    pub open spec fn height(&self) -> nat {
        self.rows@.len()
    }

    /// The number of columns, which is the length of the first row.
    pub open spec fn width(&self) -> nat {
        if self.rows@.len() == 0 {
            0
        } else {
            self.rows@[0]@.len()
        }
    }

    /// Every row has the same length, and neither side exceeds `MAX_DIM`.
    pub open spec fn wf(&self) -> bool {
        &&& self.height() <= MAX_DIM
        &&& self.width() <= MAX_DIM
        &&& forall|y: int| 0 <= y < self.rows@.len() ==> (#[trigger] self.rows@[y])@.len() == self.width()
    }

    /// Whether the grid has a cell at `loc`.
    pub open spec fn contains(&self, loc: Location) -> bool {
        0 <= loc.y < self.height() && 0 <= loc.x < self.width()
    }

    /// The cell at `loc`, for a location that the grid contains.
    pub open spec fn cell(&self, loc: Location) -> Electrode {
        self.rows@[loc.y as int]@[loc.x as int]
    }

    /// The cell in row `y` and column `x`.
    pub open spec fn at(&self, y: int, x: int) -> Electrode {
        self.rows@[y]@[x]
    }

    /// Whether the grid has `h` rows of `w` cells without peripherals, its
    /// pins numbered row by row from zero.
    pub open spec fn is_rectangle(&self, h: int, w: int) -> bool {
        &&& self.wf()
        &&& self.height() == h
        &&& h > 0 ==> self.width() == w
        &&& forall|y: int, x: int|
            0 <= y < h && 0 <= x < w ==> (#[trigger] self.at(y, x)).peripheral is None && self.at(
                y,
                x,
            ).pin == y * w + x
    }

    /// Whether the grid is a rectangle of `h` rows and `w` columns that has
    /// the peripheral `p` at `loc` and no other.
    pub open spec fn is_rectangle_with(&self, h: int, w: int, loc: Location, p: Peripheral) -> bool {
        &&& self.wf()
        &&& self.height() == h
        &&& self.width() == w
        &&& self.contains(loc)
        &&& forall|y: int, x: int|
            0 <= y < h && 0 <= x < w ==> (#[trigger] self.at(y, x)).peripheral == (if y == loc.y
                && x == loc.x {
                Some(p)
            } else {
                None
            }) && self.at(y, x).pin == y * w + x
    }

    /// A grid of `h` rows and `w` columns without peripherals, its pins
    /// numbered row by row from zero.
    pub fn rectangle(h: usize, w: usize) -> (g: Grid)
        requires
            h <= MAX_DIM,
            w <= MAX_DIM,
        ensures
            g.is_rectangle(h as int, w as int),
    {
        let mut rows: Vec<Vec<Electrode>> = Vec::new();
        let mut y: usize = 0;
        while y < h
            invariant
                y <= h <= MAX_DIM,
                w <= MAX_DIM,
                rows@.len() == y,
                forall|i: int| 0 <= i < y ==> (#[trigger] rows@[i])@.len() == w,
                forall|i: int, j: int|
                    0 <= i < y && 0 <= j < w ==> (#[trigger] rows@[i]@[j]).peripheral is None
                        && rows@[i]@[j].pin == i * w + j,
            decreases h - y,
        {
            let mut row: Vec<Electrode> = Vec::new();
            let mut x: usize = 0;
            while x < w
                invariant
                    y < h <= MAX_DIM,
                    x <= w <= MAX_DIM,
                    row@.len() == x,
                    forall|j: int|
                        0 <= j < x ==> (#[trigger] row@[j]).peripheral is None && row@[j].pin == y
                            * w + j,
                decreases w - x,
            {
                assert(y * w + x < 0x4000_0000) by (nonlinear_arith)
                    requires
                        y < 0x8000,
                        x < w,
                        w <= 0x8000,
                ;
                let pin: u32 = (y * w + x) as u32;
                row.push(Electrode { pin, peripheral: None });
                x = x + 1;
            }
            rows.push(row);
            y = y + 1;
        }
        Grid { rows }
    }

    /// The number of rows.
    pub fn max_height(&self) -> (h: usize)
        ensures
            h == self.height(),
    {
        self.rows.len()
    }

    /// The number of columns.
    pub fn max_width(&self) -> (w: usize)
        ensures
            w == self.width(),
    {
        if self.rows.len() == 0 {
            0
        } else {
            self.rows[0].len()
        }
    }

    /// The cell at `loc`, or nothing where `loc` lies outside the grid.
    pub fn get_cell(&self, loc: &Location) -> (r: Option<&Electrode>)
        requires
            self.wf(),
        ensures
            self.contains(*loc) ==> r == Some(&self.cell(*loc)),
            !self.contains(*loc) ==> r is None,
    {
        if loc.y < 0 || loc.x < 0 {
            return None;
        }
        let y = loc.y as usize;
        let x = loc.x as usize;
        if y >= self.rows.len() {
            return None;
        }
        if x >= self.rows[y].len() {
            return None;
        }
        Some(&self.rows[y][x])
    }

    /// The cell at `loc` for writing, or nothing where `loc` lies outside the
    /// grid. Only that cell can change through the reference.
    pub fn get_cell_mut(&mut self, loc: &Location) -> (r: Option<&mut Electrode>)
        requires
            old(self).wf(),
        ensures
            !old(self).contains(*loc) ==> r is None && *final(self) == *old(self),
            old(self).contains(*loc) ==> r is Some && *r->0 == old(self).cell(*loc)
                && final(self).rows@.len() == old(self).rows@.len()
                && final(self).rows@[loc.y as int]@ == old(self).rows@[loc.y as int]@.update(
                loc.x as int,
                *final(r->0),
            ) && forall|y: int|
                0 <= y < old(self).rows@.len() && y != loc.y ==> final(self).rows@[y]
                    == old(self).rows@[y],
    {
        if loc.y < 0 || loc.x < 0 {
            return None;
        }
        let y = loc.y as usize;
        let x = loc.x as usize;
        if y >= self.rows.len() {
            return None;
        }
        if x >= self.rows[y].len() {
            return None;
        }
        Some(&mut self.rows[y][x])
    }

    /// Binds the peripheral to the cell at `loc`, in place of what the cell
    /// had.
    pub fn set_peripheral(&mut self, loc: &Location, peripheral: Peripheral)
        requires
            old(self).wf(),
            old(self).contains(*loc),
        ensures
            final(self).wf(),
            final(self).height() == old(self).height(),
            final(self).width() == old(self).width(),
            forall|y: int, x: int|
                0 <= y < old(self).height() && 0 <= x < old(self).width()
                    ==> #[trigger] final(self).at(y, x) == (if y == loc.y && x == loc.x {
                    Electrode { peripheral: Some(peripheral), ..old(self).at(y, x) }
                } else {
                    old(self).at(y, x)
                }),
    {
        let cell = self.get_cell_mut(loc).unwrap();
        cell.peripheral = Some(peripheral);
    }

    /// The peripheral that the entries bind to the cell in row `y` and column
    /// `x`: that of the last entry for the cell, if there is one.
    pub open spec fn bound_at(
        peripherals: Seq<(Location, Peripheral)>,
        y: int,
        x: int,
    ) -> Option<Peripheral>
        decreases peripherals.len(),
    {
        if peripherals.len() == 0 {
            None
        } else if peripherals.last().0.y == y && peripherals.last().0.x == x {
            Some(peripherals.last().1)
        } else {
            Self::bound_at(peripherals.drop_last(), y, x)
        }
    }

    /// The width that a description gives: the length of its first row.
    pub open spec fn described_width(pins: Seq<Vec<u32>>) -> nat {
        if pins.len() == 0 {
            0
        } else {
            pins[0]@.len()
        }
    }

    /// Whether the entry binds its peripheral to a cell of a grid of `h` rows
    /// and `w` columns.
    pub open spec fn on_grid(entry: (Location, Peripheral), h: int, w: int) -> bool {
        0 <= entry.0.y < h && 0 <= entry.0.x < w
    }

    /// The grid that a description gives: `pins` holds the pin of each cell,
    /// row by row, and `peripherals` binds peripherals to cells. The rows must
    /// be equally long, and each peripheral must be bound to a cell of the
    /// grid; where two entries name one cell the later one counts. The answer
    /// names the first fault that is found when the size is looked at first,
    /// then the rows, then the peripherals.
    pub fn from_description(pins: &Vec<Vec<u32>>, peripherals: &Vec<(Location, Peripheral)>) -> (r:
        Result<Grid, ParseError>)
        ensures
            match r {
                Ok(g) => {
                    &&& pins@.len() <= MAX_DIM
                    &&& Self::described_width(pins@) <= MAX_DIM
                    &&& forall|y: int|
                        0 <= y < pins@.len() ==> (#[trigger] pins@[y])@.len()
                            == Self::described_width(pins@)
                    &&& forall|k: int|
                        0 <= k < peripherals@.len() ==> Self::on_grid(
                            #[trigger] peripherals@[k],
                            pins@.len() as int,
                            Self::described_width(pins@) as int,
                        )
                    &&& g.wf()
                    &&& g.height() == pins@.len()
                    &&& g.width() == Self::described_width(pins@)
                    &&& forall|y: int, x: int|
                        0 <= y < g.height() && 0 <= x < g.width() ==> (#[trigger] g.at(y, x)).pin
                            == pins@[y]@[x] && g.at(y, x).peripheral == Self::bound_at(
                            peripherals@,
                            y,
                            x,
                        )
                },
                Err(ParseError::TooLarge) => pins@.len() > MAX_DIM || Self::described_width(pins@)
                    > MAX_DIM,
                Err(ParseError::Ragged { row }) => {
                    &&& pins@.len() <= MAX_DIM
                    &&& Self::described_width(pins@) <= MAX_DIM
                    &&& row < pins@.len()
                    &&& pins@[row as int]@.len() != Self::described_width(pins@)
                    &&& forall|y: int|
                        0 <= y < row ==> (#[trigger] pins@[y])@.len() == Self::described_width(
                            pins@,
                        )
                },
                Err(ParseError::OffGrid { entry }) => {
                    &&& pins@.len() <= MAX_DIM
                    &&& Self::described_width(pins@) <= MAX_DIM
                    &&& forall|y: int|
                        0 <= y < pins@.len() ==> (#[trigger] pins@[y])@.len()
                            == Self::described_width(pins@)
                    &&& entry < peripherals@.len()
                    &&& !Self::on_grid(
                        peripherals@[entry as int],
                        pins@.len() as int,
                        Self::described_width(pins@) as int,
                    )
                    &&& forall|k: int|
                        0 <= k < entry ==> Self::on_grid(
                            #[trigger] peripherals@[k],
                            pins@.len() as int,
                            Self::described_width(pins@) as int,
                        )
                },
            },
    {
        let h = pins.len();
        let w = if h == 0 {
            0
        } else {
            pins[0].len()
        };
        if h > MAX_DIM || w > MAX_DIM {
            return Err(ParseError::TooLarge);
        }
        let mut rows: Vec<Vec<Electrode>> = Vec::new();
        let mut y: usize = 0;
        while y < h
            invariant
                h == pins@.len(),
                w == Self::described_width(pins@),
                h <= MAX_DIM,
                w <= MAX_DIM,
                y <= h,
                rows@.len() == y,
                forall|i: int| 0 <= i < y ==> (#[trigger] pins@[i])@.len() == w,
                forall|i: int| 0 <= i < y ==> (#[trigger] rows@[i])@.len() == w,
                forall|i: int, j: int|
                    0 <= i < y && 0 <= j < w ==> (#[trigger] rows@[i]@[j]).peripheral is None
                        && rows@[i]@[j].pin == pins@[i]@[j],
            decreases h - y,
        {
            if pins[y].len() != w {
                return Err(ParseError::Ragged { row: y });
            }
            let mut row: Vec<Electrode> = Vec::new();
            let mut x: usize = 0;
            while x < w
                invariant
                    y < h,
                    h == pins@.len(),
                    pins@[y as int]@.len() == w,
                    x <= w,
                    row@.len() == x,
                    forall|j: int|
                        0 <= j < x ==> (#[trigger] row@[j]).peripheral is None && row@[j].pin
                            == pins@[y as int]@[j],
                decreases w - x,
            {
                row.push(Electrode { pin: pins[y][x], peripheral: None });
                x = x + 1;
            }
            rows.push(row);
            y = y + 1;
        }
        let mut grid = Grid { rows };
        let mut k: usize = 0;
        while k < peripherals.len()
            invariant
                h == pins@.len(),
                w == Self::described_width(pins@),
                h <= MAX_DIM,
                w <= MAX_DIM,
                forall|i: int| 0 <= i < h ==> (#[trigger] pins@[i])@.len() == w,
                k <= peripherals@.len(),
                grid.wf(),
                grid.height() == h,
                grid.width() == w,
                forall|m: int|
                    0 <= m < k ==> Self::on_grid(#[trigger] peripherals@[m], h as int, w as int),
                forall|i: int, j: int|
                    0 <= i < h && 0 <= j < w ==> (#[trigger] grid.at(i, j)).pin == pins@[i]@[j]
                        && grid.at(i, j).peripheral == Self::bound_at(
                        peripherals@.take(k as int),
                        i,
                        j,
                    ),
            decreases peripherals@.len() - k,
        {
            let loc = peripherals[k].0;
            if loc.y < 0 || loc.x < 0 || loc.y as usize >= h || loc.x as usize >= w {
                return Err(ParseError::OffGrid { entry: k });
            }
            grid.set_peripheral(&loc, peripherals[k].1.duplicate());
            proof {
                let next = peripherals@.take(k + 1);
                assert(next.drop_last() == peripherals@.take(k as int));
                assert(next.last() == peripherals@[k as int]);
            }
            k = k + 1;
        }
        proof {
            assert(peripherals@.take(k as int) == peripherals@);
        }
        Ok(grid)
    }
}

} // verus!
