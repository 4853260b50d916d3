//! Placement: the first place, the board read row by row, where the region
//! of a command fits.

use vstd::prelude::*;

use crate::command::CommandRequest;
use crate::grid::droplet::{axis_gap_of, rect_distance, Droplet, DropletId};
use crate::grid::grid::{Grid, Peripheral};
use crate::grid::gridview::{GridView, Placement, Snapshot, MAX_BOARD_DIM};
use crate::grid::location::Location;

verus! {

/// Whether the droplet stands in the way of a region: every droplet does,
/// but the inputs of the command, which leave or are brought into the region,
/// and a pinned droplet.
pub open spec fn blocks(d: Droplet, inputs: Seq<DropletId>) -> bool {
    !inputs.contains(d.id) && !d.pinned
}

/// Whether the droplet keeps the minimum separation from every cell of the
/// rectangle of `h` rows and `w` columns whose top-left cell lies in row `y`
/// and column `x`.
pub open spec fn region_clear_of(y: int, x: int, h: int, w: int, d: Droplet) -> bool {
    h == 0 || w == 0 || rect_distance(
        y,
        x,
        h,
        w,
        d.location.y as int,
        d.location.x as int,
        d.dimensions.y as int,
        d.dimensions.x as int,
    ) > 0
}

/// Whether the region `shape` can lie with its top-left cell in row `y` and
/// column `x` of `grid`: it lies on the grid, every droplet in its way keeps
/// the minimum separation from it, and each of its cells is served by the
/// cell of the grid under it.
pub open spec fn fits(
    grid: &Grid,
    shape: &Grid,
    ds: Seq<Droplet>,
    inputs: Seq<DropletId>,
    y: int,
    x: int,
) -> bool {
    &&& 0 <= y
    &&& 0 <= x
    &&& y + shape.height() <= grid.height()
    &&& x + shape.width() <= grid.width()
    &&& forall|i: int|
        0 <= i < ds.len() && blocks(#[trigger] ds[i], inputs) ==> region_clear_of(
            y,
            x,
            shape.height() as int,
            shape.width() as int,
            ds[i],
        )
    &&& forall|r: int, c: int|
        0 <= r < shape.height() && 0 <= c < shape.width() ==> (#[trigger] shape.at(
            r,
            c,
        )).served_by(grid.at(y + r, x + c))
}

/// Whether the cell in row `y1` and column `x1` comes before the cell in row
/// `y2` and column `x2` when the grid is read row by row.
pub open spec fn comes_before(y1: int, x1: int, y2: int, x2: int) -> bool {
    y1 < y2 || (y1 == y2 && x1 < x2)
}

/// Whether the region fits at the cell in row `y` and column `x` of the grid
/// and at no cell that comes before it.
pub open spec fn is_first_fit(
    grid: &Grid,
    shape: &Grid,
    ds: Seq<Droplet>,
    inputs: Seq<DropletId>,
    y: int,
    x: int,
) -> bool {
    &&& 0 <= y < grid.height()
    &&& 0 <= x < grid.width()
    &&& fits(grid, shape, ds, inputs, y, x)
    &&& forall|y2: int, x2: int|
        0 <= y2 < grid.height() && 0 <= x2 < grid.width() && comes_before(y2, x2, y, x) ==> !fits(
            grid,
            shape,
            ds,
            inputs,
            y2,
            x2,
        )
}

/// Whether the region fits at no cell of the grid.
pub open spec fn fits_nowhere(
    grid: &Grid,
    shape: &Grid,
    ds: Seq<Droplet>,
    inputs: Seq<DropletId>,
) -> bool {
    forall|y: int, x: int|
        0 <= y < grid.height() && 0 <= x < grid.width() ==> !fits(grid, shape, ds, inputs, y, x)
}

/// What a command needs of the board, told apart from the grid that carries
/// the request: a rectangle of `height` rows and `width` columns and, where
/// `port` is given, a peripheral that the board must have under one position
/// of the rectangle.
pub struct Region {
    pub height: int,
    pub width: int,
    pub port: Option<(Location, Peripheral)>,
}

/// Whether the grid `shape` asks for the region `r`.
pub open spec fn asks_for(shape: &Grid, r: Region) -> bool {
    &&& shape.height() == r.height
    &&& shape.width() == r.width
    &&& match r.port {
        None => shape.is_rectangle(r.height, r.width),
        Some((loc, p)) => shape.is_rectangle_with(r.height, r.width, loc, p),
    }
}

/// Whether the region can lie with its top-left cell in row `y` and column
/// `x` of `grid`: it lies on the grid, every droplet in its way keeps the
/// minimum separation from it, and the grid has a compatible peripheral where
/// the region wants one.
pub open spec fn has_room(
    grid: &Grid,
    r: Region,
    ds: Seq<Droplet>,
    inputs: Seq<DropletId>,
    y: int,
    x: int,
) -> bool {
    &&& 0 <= y
    &&& 0 <= x
    &&& y + r.height <= grid.height()
    &&& x + r.width <= grid.width()
    &&& forall|i: int|
        0 <= i < ds.len() && blocks(#[trigger] ds[i], inputs) ==> region_clear_of(
            y,
            x,
            r.height,
            r.width,
            ds[i],
        )
    &&& match r.port {
        None => true,
        Some((loc, p)) => match grid.at(y + loc.y, x + loc.x).peripheral {
            Some(found) => p.compatible(found),
            None => false,
        },
    }
}

/// Whether the region has room at the cell in row `y` and column `x` of the
/// grid and at no cell that comes before it.
pub open spec fn is_first_room(
    grid: &Grid,
    r: Region,
    ds: Seq<Droplet>,
    inputs: Seq<DropletId>,
    y: int,
    x: int,
) -> bool {
    &&& 0 <= y < grid.height()
    &&& 0 <= x < grid.width()
    &&& has_room(grid, r, ds, inputs, y, x)
    &&& forall|y2: int, x2: int|
        0 <= y2 < grid.height() && 0 <= x2 < grid.width() && comes_before(y2, x2, y, x)
            ==> !has_room(grid, r, ds, inputs, y2, x2)
}

/// Where the planner puts the region. With an anchor the region goes there
/// if it has room there. Without one it goes to the first cell of the grid,
/// read row by row, at which it has room.
pub open spec fn chosen(
    grid: &Grid,
    r: Region,
    anchor: Option<Location>,
    ds: Seq<Droplet>,
    inputs: Seq<DropletId>,
) -> Option<Placement> {
    match anchor {
        Some(origin) => if has_room(grid, r, ds, inputs, origin.y as int, origin.x as int) {
            Some(Placement { offset: origin, height: r.height as usize, width: r.width as usize })
        } else {
            None
        },
        None => if exists|y: int, x: int| is_first_room(grid, r, ds, inputs, y, x) {
            let (y, x) = choose|y: int, x: int| is_first_room(grid, r, ds, inputs, y, x);
            Some(
                Placement {
                    offset: Location { y: y as i32, x: x as i32 },
                    height: r.height as usize,
                    width: r.width as usize,
                },
            )
        } else {
            None
        },
    }
}

/// A grid that asks for a region fits exactly where the region has room.
pub proof fn lemma_fits_is_room(
    grid: &Grid,
    shape: &Grid,
    r: Region,
    ds: Seq<Droplet>,
    inputs: Seq<DropletId>,
    y: int,
    x: int,
)
    requires
        asks_for(shape, r),
    ensures
        fits(grid, shape, ds, inputs, y, x) == has_room(grid, r, ds, inputs, y, x),
{
    if 0 <= y && 0 <= x && y + r.height <= grid.height() && x + r.width <= grid.width() {
        match r.port {
            None => {},
            Some((loc, p)) => {
                assert(shape.at(loc.y as int, loc.x as int).peripheral == Some(p));
                if has_room(grid, r, ds, inputs, y, x) {
                    assert forall|row: int, c: int|
                        0 <= row < shape.height() && 0 <= c < shape.width() implies (
                    #[trigger] shape.at(row, c)).served_by(grid.at(y + row, x + c)) by {
                        if row == loc.y && c == loc.x {
                        } else {
                            assert(shape.at(row, c).peripheral is None);
                        }
                    }
                }
            },
        }
    }
}

/// The first cell with room is the only one.
pub proof fn lemma_first_room_is_chosen(
    grid: &Grid,
    r: Region,
    ds: Seq<Droplet>,
    inputs: Seq<DropletId>,
    y: int,
    x: int,
)
    requires
        is_first_room(grid, r, ds, inputs, y, x),
        0 <= r.height <= usize::MAX,
        0 <= r.width <= usize::MAX,
        y <= i32::MAX,
        x <= i32::MAX,
    ensures
        chosen(grid, r, None, ds, inputs) == Some(
            Placement {
                offset: Location { y: y as i32, x: x as i32 },
                height: r.height as usize,
                width: r.width as usize,
            },
        ),
{
    let (y2, x2) = choose|y2: int, x2: int| is_first_room(grid, r, ds, inputs, y2, x2);
    assert(is_first_room(grid, r, ds, inputs, y2, x2));
    if comes_before(y2, x2, y, x) {
        assert(!has_room(grid, r, ds, inputs, y2, x2));
    }
    if comes_before(y, x, y2, x2) {
        assert(!has_room(grid, r, ds, inputs, y, x));
    }
}

/// What the planner chooses is a place where the region has room.
pub proof fn lemma_chosen_has_room(
    grid: &Grid,
    r: Region,
    anchor: Option<Location>,
    ds: Seq<Droplet>,
    inputs: Seq<DropletId>,
)
    requires
        chosen(grid, r, anchor, ds, inputs) is Some,
        grid.height() <= MAX_BOARD_DIM,
        grid.width() <= MAX_BOARD_DIM,
    ensures
        has_room(
            grid,
            r,
            ds,
            inputs,
            chosen(grid, r, anchor, ds, inputs)->0.offset.y as int,
            chosen(grid, r, anchor, ds, inputs)->0.offset.x as int,
        ),
        anchor is Some ==> chosen(grid, r, anchor, ds, inputs)->0.offset == anchor->0,
        anchor is None ==> is_first_room(
            grid,
            r,
            ds,
            inputs,
            chosen(grid, r, anchor, ds, inputs)->0.offset.y as int,
            chosen(grid, r, anchor, ds, inputs)->0.offset.x as int,
        ),
{
    if anchor is None {
        let (y, x) = choose|y: int, x: int| is_first_room(grid, r, ds, inputs, y, x);
        assert(is_first_room(grid, r, ds, inputs, y, x));
    }
}

/// A region without cells has room at the first cell of a board that has
/// cells, and nowhere on a board without cells.
pub proof fn lemma_chosen_for_nothing(grid: &Grid, ds: Seq<Droplet>, inputs: Seq<DropletId>)
    ensures
        chosen(grid, Region { height: 0, width: 0, port: None }, None, ds, inputs) == (if grid.height()
            > 0 && grid.width() > 0 {
            Some(Placement { offset: Location { y: 0, x: 0 }, height: 0, width: 0 })
        } else {
            None
        }),
{
    let r = Region { height: 0, width: 0, port: None };
    if grid.height() > 0 && grid.width() > 0 {
        assert(is_first_room(grid, r, ds, inputs, 0, 0));
        lemma_first_room_is_chosen(grid, r, ds, inputs, 0, 0);
    }
}

/// Whether `id` is among `ids`.
pub fn contains_id(ids: &Vec<DropletId>, id: &DropletId) -> (r: bool)
    ensures
        r == ids@.contains(*id),
{
    let mut k: usize = 0;
    while k < ids.len()
        invariant
            k <= ids@.len(),
            forall|m: int| 0 <= m < k ==> ids@[m] != *id,
        decreases ids@.len() - k,
    {
        if ids[k] == *id {
            return true;
        }
        k = k + 1;
    }
    false
}

impl Grid {
    /// Whether every droplet in the way keeps the minimum separation from
    /// the rectangle of `h` rows and `w` columns at row `y` and column `x`.
    fn is_clear_within(
        y: usize,
        x: usize,
        h: usize,
        w: usize,
        snapshot: &Snapshot,
        inputs: &Vec<DropletId>,
    ) -> (r: bool)
        requires
            y <= MAX_BOARD_DIM,
            x <= MAX_BOARD_DIM,
            h <= MAX_BOARD_DIM,
            w <= MAX_BOARD_DIM,
        ensures
            r == forall|i: int|
                0 <= i < snapshot.droplets@.len() && blocks(
                    #[trigger] snapshot.droplets@[i],
                    inputs@,
                ) ==> region_clear_of(y as int, x as int, h as int, w as int, snapshot.droplets@[i]),
    {
        if h == 0 || w == 0 {
            return true;
        }
        let mut i: usize = 0;
        while i < snapshot.droplets.len()
            invariant
                i <= snapshot.droplets@.len(),
                y <= MAX_BOARD_DIM,
                x <= MAX_BOARD_DIM,
                0 < h <= MAX_BOARD_DIM,
                0 < w <= MAX_BOARD_DIM,
                forall|k: int|
                    0 <= k < i && blocks(#[trigger] snapshot.droplets@[k], inputs@)
                        ==> region_clear_of(
                        y as int,
                        x as int,
                        h as int,
                        w as int,
                        snapshot.droplets@[k],
                    ),
            decreases snapshot.droplets@.len() - i,
        {
            let d = &snapshot.droplets[i];
            if !d.pinned && !contains_id(inputs, &d.id) {
                let gy = axis_gap_of(y as i64, h as i64, d.location.y as i64, d.dimensions.y as i64);
                let gx = axis_gap_of(x as i64, w as i64, d.location.x as i64, d.dimensions.x as i64);
                if gy <= 0 && gx <= 0 {
                    return false;
                }
            }
            i = i + 1;
        }
        true
    }

    /// Whether each cell of `shape` is served by the cell of this grid under
    /// it, once the top-left cell of `shape` lies at row `y` and column `x`.
    fn serves_within(&self, y: usize, x: usize, shape: &Grid) -> (r: bool)
        requires
            self.wf(),
            shape.wf(),
            y + shape.height() <= self.height(),
            x + shape.width() <= self.width(),
        ensures
            r == forall|r: int, c: int|
                0 <= r < shape.height() && 0 <= c < shape.width() ==> (#[trigger] shape.at(
                    r,
                    c,
                )).served_by(self.at(y + r, x + c)),
    {
        let h = shape.max_height();
        let w = shape.max_width();
        let mut r: usize = 0;
        while r < h
            invariant
                self.wf(),
                shape.wf(),
                h == shape.height(),
                w == shape.width(),
                y + h <= self.height(),
                x + w <= self.width(),
                r <= h,
                forall|r2: int, c2: int|
                    0 <= r2 < r && 0 <= c2 < w ==> (#[trigger] shape.at(r2, c2)).served_by(
                        self.at(y + r2, x + c2),
                    ),
            decreases h - r,
        {
            let mut c: usize = 0;
            while c < w
                invariant
                    self.wf(),
                    shape.wf(),
                    h == shape.height(),
                    w == shape.width(),
                    y + h <= self.height(),
                    x + w <= self.width(),
                    r < h,
                    c <= w,
                    forall|c2: int|
                        0 <= c2 < c ==> (#[trigger] shape.at(r as int, c2)).served_by(
                            self.at(y + r, x + c2),
                        ),
                decreases w - c,
            {
                assert(shape.rows@[r as int]@.len() == w);
                assert(self.rows@[y + r]@.len() == self.width());
                if !shape.rows[r][c].is_compatible(&self.rows[y + r][x + c]) {
                    assert(!shape.at(r as int, c as int).served_by(self.at(y + r, x + c)));
                    return false;
                }
                c = c + 1;
            }
            r = r + 1;
        }
        true
    }

    /// Whether the region `shape` can lie with its top-left cell at the cell
    /// `offset` of this grid.
    pub fn is_compatible_within(
        &self,
        offset: &Location,
        shape: &Grid,
        snapshot: &Snapshot,
        inputs: &Vec<DropletId>,
    ) -> (r: bool)
        requires
            self.wf(),
            self.height() <= MAX_BOARD_DIM,
            self.width() <= MAX_BOARD_DIM,
            shape.wf(),
        ensures
            r == fits(self, shape, snapshot.droplets@, inputs@, offset.y as int, offset.x as int),
    {
        if offset.y < 0 || offset.x < 0 {
            return false;
        }
        let y = offset.y as usize;
        let x = offset.x as usize;
        let h = shape.max_height();
        let w = shape.max_width();
        let gh = self.max_height();
        let gw = self.max_width();
        if y > gh || h > gh - y || x > gw || w > gw - x {
            return false;
        }
        if !Self::is_clear_within(y, x, h, w, snapshot, inputs) {
            return false;
        }
        self.serves_within(y, x, shape)
    }

    /// Searches this grid row by row for the first cell at which the region
    /// `shape` fits.
    pub fn place(&self, shape: &Grid, snapshot: &Snapshot, inputs: &Vec<DropletId>) -> (r: Option<
        Placement,
    >)
        requires
            self.wf(),
            self.height() <= MAX_BOARD_DIM,
            self.width() <= MAX_BOARD_DIM,
            shape.wf(),
        ensures
            match r {
                Some(p) => p.height == shape.height() && p.width == shape.width() && is_first_fit(
                    self,
                    shape,
                    snapshot.droplets@,
                    inputs@,
                    p.offset.y as int,
                    p.offset.x as int,
                ),
                None => fits_nowhere(self, shape, snapshot.droplets@, inputs@),
            },
    {
        let gh = self.max_height();
        let gw = self.max_width();
        let mut y: usize = 0;
        while y < gh
            invariant
                self.wf(),
                shape.wf(),
                gh == self.height(),
                gw == self.width(),
                gh <= MAX_BOARD_DIM,
                gw <= MAX_BOARD_DIM,
                y <= gh,
                forall|y2: int, x2: int|
                    0 <= y2 < y && 0 <= x2 < gw ==> !fits(
                        self,
                        shape,
                        snapshot.droplets@,
                        inputs@,
                        y2,
                        x2,
                    ),
            decreases gh - y,
        {
            let mut x: usize = 0;
            while x < gw
                invariant
                    self.wf(),
                    shape.wf(),
                    gh == self.height(),
                    gw == self.width(),
                    gh <= MAX_BOARD_DIM,
                    gw <= MAX_BOARD_DIM,
                    y < gh,
                    x <= gw,
                    forall|y2: int, x2: int|
                        0 <= y2 < y && 0 <= x2 < gw ==> !fits(
                            self,
                            shape,
                            snapshot.droplets@,
                            inputs@,
                            y2,
                            x2,
                        ),
                    forall|x2: int|
                        0 <= x2 < x ==> !fits(
                            self,
                            shape,
                            snapshot.droplets@,
                            inputs@,
                            y as int,
                            x2,
                        ),
                decreases gw - x,
            {
                let offset = Location { y: y as i32, x: x as i32 };
                if self.is_compatible_within(&offset, shape, snapshot, inputs) {
                    return Some(
                        Placement { offset, height: shape.max_height(), width: shape.max_width() },
                    );
                }
                x = x + 1;
            }
            y = y + 1;
        }
        None
    }
}

impl GridView {
    /// Finds the place for a request on the board as it stands, the droplets
    /// named in `inputs` not counting: the place that a trusted request names
    /// itself, or the first cell at which the region fits.
    pub(crate) fn resolve(
        &self,
        req: &CommandRequest,
        inputs: &Vec<DropletId>,
        Ghost(r): Ghost<Region>,
    ) -> (p:
        Option<Placement>)
        requires
            self.sound(),
            req.shape.wf(),
            asks_for(&req.shape, r),
        ensures
            p == chosen(
                &self.grid,
                r,
                if req.trusted {
                    Some(req.origin)
                } else {
                    None
                },
                self.droplets(),
                inputs@,
            ),
            p is Some ==> has_room(
                &self.grid,
                r,
                self.droplets(),
                inputs@,
                p->0.offset.y as int,
                p->0.offset.x as int,
            ) && p->0.height == r.height && p->0.width == r.width && p->0.on_board(&self.grid),
    {
        if req.trusted {
            proof {
                lemma_fits_is_room(
                    &self.grid,
                    &req.shape,
                    r,
                    self.droplets(),
                    inputs@,
                    req.origin.y as int,
                    req.origin.x as int,
                );
            }
            if self.grid.is_compatible_within(&req.origin, &req.shape, &self.snapshot, inputs) {
                Some(
                    Placement {
                        offset: req.origin,
                        height: req.shape.max_height(),
                        width: req.shape.max_width(),
                    },
                )
            } else {
                None
            }
        } else {
            let found = self.grid.place(&req.shape, &self.snapshot, inputs);
            proof {
                assert forall|y: int, x: int|
                    fits(&self.grid, &req.shape, self.droplets(), inputs@, y, x) == has_room(
                        &self.grid,
                        r,
                        self.droplets(),
                        inputs@,
                        y,
                        x,
                    ) by {
                    lemma_fits_is_room(&self.grid, &req.shape, r, self.droplets(), inputs@, y, x);
                }
                match found {
                    Some(p) => {
                        assert(is_first_room(
                            &self.grid,
                            r,
                            self.droplets(),
                            inputs@,
                            p.offset.y as int,
                            p.offset.x as int,
                        ));
                        lemma_first_room_is_chosen(
                            &self.grid,
                            r,
                            self.droplets(),
                            inputs@,
                            p.offset.y as int,
                            p.offset.x as int,
                        );
                    },
                    None => {
                        if exists|y: int, x: int|
                            is_first_room(&self.grid, r, self.droplets(), inputs@, y, x) {
                            let (y, x) = choose|y: int, x: int|
                                is_first_room(&self.grid, r, self.droplets(), inputs@, y, x);
                            assert(!fits(
                                &self.grid,
                                &req.shape,
                                self.droplets(),
                                inputs@,
                                y,
                                x,
                            ));
                        }
                    },
                }
            }
            found
        }
    }
}

} // verus!
