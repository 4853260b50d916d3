//! The commands that clients' operations are made of, and the life cycle
//! that the planner takes each of them through.

use vstd::prelude::*;

use crate::grid::droplet::{Droplet, DropletId, DropletInfo, ProcessId, SimpleBlob};
use crate::grid::grid::{Grid, Peripheral, MAX_DIM};
use crate::grid::gridview::{
    below, bounded, calm, calm_but, fresh, has_droplet, index_of, infos,
    keeps_bounds, lemma_bounded_after_remove, lemma_untouched_push, lemma_untouched_remove,
    lemma_untouched_twice, untouched, lemma_calm_after_push, lemma_calm_after_remove,
    lemma_has_after_push, lemma_has_after_remove, lemma_index_of, lemma_remove_index,
    lemma_remove_keeps_wf, lemma_rename_keeps_wf, lemma_same_names, lemma_unique_after_remove,
    GridSubView, GridView, Placement, Snapshot, N_CHANNELS,
};
use crate::grid::location::Location;
use crate::plan::place::{asks_for, has_room, Region};
use crate::plan::{
    delivered, lemma_delivered_at, lemma_delivered_names, lemma_delivered_none,
    lemma_delivered_one, PlanError,
};
use crate::process::PuddleResult;

verus! {

/// What a command asks of the planner before it runs.
#[derive(Debug)]
pub struct CommandRequest {
    /// The region that the command needs. A cell with a peripheral stands for
    /// a cell of the board with a compatible peripheral.
    pub shape: Grid,
    /// For each input droplet of the command, in their order, the position
    /// inside the region to which it must be brought.
    pub input_locations: Vec<Location>,
    /// A trusted request names the place of its region itself: no search is
    /// made, and the region goes to `origin` or nowhere.
    pub trusted: bool,
    /// The cell of the board at which the top-left cell of the region must
    /// lie; read only if the request is trusted.
    pub origin: Location,
}

impl CommandRequest {
    /// The region is a well-formed grid and holds every input location.
    pub open spec fn wf(&self) -> bool {
        &&& self.shape.wf()
        &&& forall|k: int|
            0 <= k < self.input_locations@.len() ==> 0 <= (#[trigger] self.input_locations@[k]).y
                < self.shape.height() && 0 <= self.input_locations@[k].x < self.shape.width()
    }
}

/// What has to happen outside the board once a command has run. The library
/// only lists these effects; whoever drives the hardware carries them out in
/// their order.
#[derive(Debug)]
pub enum Effect {
    /// Hold the heater at `temperature` thousandths of a degree Celsius for
    /// `duration` milliseconds.
    Heat { heater: Peripheral, temperature: i32, duration: u64 },
    /// Dispense `volume` units through the input port.
    Dispense { input: Peripheral, volume: u64 },
    /// Drain `volume` units through the output port.
    Drain { output: Peripheral, volume: u64 },
    /// Switch the channels: one entry for each channel, 1 for on and 0 for
    /// off.
    Pins { levels: Vec<u8> },
    /// Let `millis` milliseconds pass.
    Wait { millis: u64 },
    /// Tell the process `pid` how its flush ended.
    Report { pid: ProcessId, result: Result<Vec<DropletInfo>, PlanError> },
}

/// The level of each channel when exactly the channels `pins` are on.
pub open spec fn levels_of(pins: Seq<usize>) -> Seq<u8> {
    Seq::new(
        N_CHANNELS as nat,
        |i: int|
            if pins.contains(i as usize) {
                1u8
            } else {
                0u8
            },
    )
}

/// The level of each channel when exactly the channels `pins` are on.
pub fn pin_levels(pins: &Vec<usize>) -> (levels: Vec<u8>)
    requires
        forall|k: int| 0 <= k < pins@.len() ==> pins@[k] < N_CHANNELS,
    ensures
        levels@ == levels_of(pins@),
{
    let mut levels: Vec<u8> = Vec::new();
    let mut i: usize = 0;
    while i < N_CHANNELS
        invariant
            i <= N_CHANNELS,
            levels@.len() == i,
            forall|j: int| 0 <= j < i ==> levels@[j] == 0u8,
        decreases N_CHANNELS - i,
    {
        levels.push(0u8);
        i = i + 1;
    }
    let mut k: usize = 0;
    while k < pins.len()
        invariant
            k <= pins@.len(),
            levels@.len() == N_CHANNELS,
            forall|m: int| 0 <= m < pins@.len() ==> pins@[m] < N_CHANNELS,
            forall|j: int|
                0 <= j < N_CHANNELS ==> levels@[j] == (if pins@.take(k as int).contains(j as usize) {
                    1u8
                } else {
                    0u8
                }),
        decreases pins@.len() - k,
    {
        let ghost seen = pins@.take(k as int);
        levels.set(pins[k], 1u8);
        proof {
            let next = pins@.take(k + 1);
            assert forall|j: int| 0 <= j < N_CHANNELS implies levels@[j] == (if next.contains(
                j as usize,
            ) {
                1u8
            } else {
                0u8
            }) by {
                if seen.contains(j as usize) {
                    let m = choose|m: int| 0 <= m < seen.len() && seen[m] == j as usize;
                    assert(next[m] == j as usize);
                }
                if j == pins@[k as int] {
                    assert(next[k as int] == j as usize);
                }
                if next.contains(j as usize) {
                    let m = choose|m: int| 0 <= m < next.len() && next[m] == j as usize;
                    if m < k {
                        assert(seen[m] == j as usize);
                    }
                }
            }
        }
        k = k + 1;
    }
    proof {
        assert(pins@.take(k as int) == pins@);
        assert(levels@ =~= levels_of(pins@));
    }
    levels
}

impl Effect {
    /// Whether the effect switches exactly the channels `pins` on.
    pub open spec fn switches(self, pins: Seq<usize>) -> bool {
        match self {
            Effect::Pins { levels } => levels@ == levels_of(pins),
            _ => false,
        }
    }

    /// Whether the effect is one wait of `millis` milliseconds.
    pub open spec fn waits(self, millis: u64) -> bool {
        self == (Effect::Wait { millis })
    }

    /// Whether the effect tells the process `to` that its flush found the
    /// droplets `found`.
    pub open spec fn reports(self, to: ProcessId, found: Seq<DropletInfo>) -> bool {
        match self {
            Effect::Report { pid, result: Ok(info) } => pid == to && info@ == found,
            _ => false,
        }
    }

    /// Whether the effect tells the process `to` that its flush failed with
    /// `err`.
    pub open spec fn reports_failure(self, to: ProcessId, err: PlanError) -> bool {
        match self {
            Effect::Report { pid, result: Err(e) } => pid == to && e == err,
            _ => false,
        }
    }
}

/// What `request` may change of the droplets: the collision group and the
/// pin of an input droplet, and nothing else.
pub open spec fn regrouped(before: Seq<Droplet>, after: Seq<Droplet>, inputs: Seq<DropletId>) -> bool {
    &&& after.len() == before.len()
    &&& forall|i: int|
        0 <= i < before.len() ==> (#[trigger] after[i]) == (Droplet {
            collision_group: after[i].collision_group,
            pinned: after[i].pinned,
            ..before[i]
        })
    &&& forall|i: int|
        0 <= i < before.len() && !inputs.contains((#[trigger] before[i]).id) ==> after[i]
            == before[i]
    &&& keeps_bounds(before, after, Seq::empty())
}

/// The life of an operation on the board. The planner asks for the `request`
/// and finds a place for it; the router brings the input droplets there;
/// `pre_run` and `run` change the droplets; `finalize` lists what has to
/// happen outside the board. `abort` takes the place of all that when no plan
/// could be made.
///
/// The spec functions are the model of the command: what it asks for and what
/// it makes of the droplets. The executable functions are held to them.
pub trait Command: Sized {
    /// The droplets that the command consumes.
    spec fn input_ids(&self) -> Seq<DropletId>;

    /// The droplets that the command produces.
    spec fn output_ids(&self) -> Seq<DropletId>;

    /// Whether the droplets `ds` already show what the command would do.
    spec fn bypassed(&self, ds: Seq<Droplet>) -> bool;

    /// The region that the command needs on a board with the droplets `ds`.
    spec fn region(&self, ds: Seq<Droplet>) -> Region;

    /// For each input droplet, in the order of `input_ids`, the position in
    /// the region to which it must be brought.
    spec fn input_locations(&self, ds: Seq<Droplet>) -> Seq<Location>;

    /// The cell of the board at which the region must lie, if the command
    /// names the place itself.
    spec fn anchor(&self, ds: Seq<Droplet>) -> Option<Location>;

    /// What the request makes of the droplets `ds`.
    spec fn requested(&self, ds: Seq<Droplet>) -> Seq<Droplet>;

    /// What `pre_run` makes of the droplets `ds`, the region lying at
    /// `offset`.
    spec fn pre_ran(&self, ds: Seq<Droplet>, offset: Location) -> Seq<Droplet>;

    /// What `run` makes of the droplets `ds`, the region lying at `offset`.
    spec fn ran(&self, ds: Seq<Droplet>, offset: Location) -> Seq<Droplet>;

    /// The frames of the ticks that pass while the command runs on the
    /// droplets `ds`.
    spec fn run_frames(&self, ds: Seq<Droplet>, offset: Location) -> Seq<Seq<Droplet>>;

    /// The command once it has run on the droplets `ds` of the board `grid`,
    /// the region lying at `p`: what it has noted for `finalize`.
    spec fn concluded(&self, grid: &Grid, ds: Seq<Droplet>, p: Placement) -> Self;

    /// What `request` asks of the board.
    spec fn can_request(&self, gridview: &GridView) -> bool;

    /// What `pre_run` asks of the view.
    spec fn can_pre_run(&self, subview: &GridSubView) -> bool;

    /// What `run` asks of the view.
    spec fn can_run(&self, subview: &GridSubView) -> bool;

    /// What `finalize` asks of the command.
    spec fn can_finalize(&self) -> bool;

    fn input_droplets(&self) -> (ids: Vec<DropletId>)
        ensures
            ids@ == self.input_ids(),
    ;

    fn output_droplets(&self) -> (ids: Vec<DropletId>)
        ensures
            ids@ == self.output_ids(),
    ;

    /// Whether the board already shows what the command would do, so that
    /// nothing is left to plan or to run.
    fn bypass(&self, gridview: &GridView) -> (skip: bool)
        ensures
            skip == self.bypassed(gridview.droplets()),
    ;

    /// The region that the command needs and where its inputs must stand in
    /// it.
    fn request(&self, gridview: &mut GridView) -> (req: CommandRequest)
        requires
            self.can_request(old(gridview)),
        ensures
            final(gridview).wf(),
            final(gridview).grid == old(gridview).grid,
            final(gridview).frames == old(gridview).frames,
            final(gridview).droplets() == self.requested(old(gridview).droplets()),
            regrouped(old(gridview).droplets(), final(gridview).droplets(), self.input_ids()),
            req.wf(),
            asks_for(&req.shape, self.region(old(gridview).droplets())),
            req.input_locations@ == self.input_locations(old(gridview).droplets()),
            req.input_locations@.len() == self.input_ids().len(),
            req.trusted == (self.anchor(old(gridview).droplets()) is Some),
            req.trusted ==> Some(req.origin) == self.anchor(old(gridview).droplets()),
    ;

    /// What has to be done before the last tick of routing. No tick passes.
    fn pre_run(&self, subview: &mut GridSubView)
        requires
            self.can_pre_run(old(subview)),
        ensures
            final(subview).droplets() == self.pre_ran(
                old(subview).droplets(),
                old(subview).placement.offset,
            ),
            final(subview).placement == old(subview).placement,
            final(subview).backing_gridview.grid == old(subview).backing_gridview.grid,
            final(subview).backing_gridview.frames == old(subview).backing_gridview.frames,
            final(subview).backing_gridview.wf(),
            keeps_bounds(old(subview).droplets(), final(subview).droplets(), self.output_ids()),
            untouched(
                old(subview).droplets(),
                final(subview).droplets(),
                self.input_ids() + self.output_ids(),
            ),
            self.can_run(final(subview)),
    ;

    /// Changes the droplets and lets the ticks pass that the change takes.
    /// The board is settled when the command has run.
    fn run(&mut self, subview: &mut GridSubView)
        requires
            old(self).can_run(old(subview)),
        ensures
            final(subview).droplets() == old(self).ran(
                old(subview).droplets(),
                old(subview).placement.offset,
            ),
            final(subview).backing_gridview.ticks() == old(subview).backing_gridview.ticks()
                + old(self).run_frames(old(subview).droplets(), old(subview).placement.offset),
            final(subview).backing_gridview.grid == old(subview).backing_gridview.grid,
            final(subview).backing_gridview.settled(),
            keeps_bounds(
                old(subview).droplets(),
                final(subview).droplets(),
                old(self).output_ids(),
            ),
            untouched(
                old(subview).droplets(),
                final(subview).droplets(),
                old(self).input_ids() + old(self).output_ids(),
            ),
            *final(self) == old(self).concluded(
                &old(subview).backing_gridview.grid,
                old(subview).droplets(),
                old(subview).placement,
            ),
            final(self).can_finalize(),
    ;

    /// Lists what has to happen outside the board.
    fn finalize(&mut self, snapshot: &Snapshot) -> (effects: Vec<Effect>)
        requires
            old(self).can_finalize(),
    ;

    /// Lists what has to happen outside the board when the command could not
    /// be planned.
    fn abort(&mut self, err: PlanError) -> (effects: Vec<Effect>)
    ;

    /// Once the planner has found the place and the router has brought the
    /// inputs there, `pre_run` can be called.
    proof fn lemma_staged(&self, before: &GridView, subview: &GridSubView)
        requires
            before.settled(),
            self.can_request(before),
            self.input_ids().no_duplicates(),
            forall|k: int|
                0 <= k < self.input_ids().len() ==> has_droplet(
                    before.droplets(),
                    #[trigger] self.input_ids()[k],
                ),
            fresh(self.output_ids(), before.droplets()),
            subview.wf(),
            subview.backing_gridview.wf(),
            subview.backing_gridview.grid == before.grid,
            subview.ids@ == self.input_ids(),
            subview.droplets() == delivered(
                self.requested(before.droplets()),
                self.input_ids(),
                self.input_locations(before.droplets()),
                subview.placement,
            ),
            subview.placement.height == self.region(before.droplets()).height,
            subview.placement.width == self.region(before.droplets()).width,
            has_room(
                &before.grid,
                self.region(before.droplets()),
                self.requested(before.droplets()),
                self.input_ids(),
                subview.placement.offset.y as int,
                subview.placement.offset.x as int,
            ),
        ensures
            self.can_pre_run(subview),
    ;

    /// What `run` asks of the view does not depend on the ticks that have
    /// passed.
    proof fn lemma_ticks_immaterial(&self, a: &GridSubView, b: &GridSubView)
        requires
            self.can_run(a),
            b.placement == a.placement,
            b.ids == a.ids,
            b.backing_gridview.grid == a.backing_gridview.grid,
            b.backing_gridview.snapshot == a.backing_gridview.snapshot,
        ensures
            self.can_run(b),
    ;
}

//
//  Create
//

/// Puts a new droplet on the board.
#[derive(Debug)]
pub struct Create {
    pub output: DropletId,
    pub location: Location,
    pub dimensions: Location,
    pub volume: u64,
    pub trusted: bool,
}

impl Create {
    /// A command that creates the droplet `out_id` of `vol` units. With a
    /// location the droplet goes there or nowhere; without one, a place is
    /// searched. Without dimensions the droplet has one cell.
    pub fn new(loc: Option<Location>, vol: u64, dim: Option<Location>, out_id: DropletId) -> (r:
        PuddleResult<Create>)
        ensures
            r == Ok::<Create, crate::process::PuddleError>(Self::spec_new(loc, vol, dim, out_id)),
    {
        Ok(
            Create {
                output: out_id,
                location: match loc {
                    Some(l) => l,
                    None => Location { y: 0, x: 0 },
                },
                dimensions: match dim {
                    Some(d) => d,
                    None => Location { y: 1, x: 1 },
                },
                volume: vol,
                trusted: loc.is_some(),
            },
        )
    }

    /// The command that `new` makes.
    pub open spec fn spec_new(
        loc: Option<Location>,
        vol: u64,
        dim: Option<Location>,
        out_id: DropletId,
    ) -> Create {
        Create {
            output: out_id,
            location: match loc {
                Some(l) => l,
                None => (Location { y: 0, x: 0 }),
            },
            dimensions: match dim {
                Some(d) => d,
                None => (Location { y: 1, x: 1 }),
            },
            volume: vol,
            trusted: loc is Some,
        }
    }

    /// The droplet that the command creates, as it stands once the region
    /// lies at `offset`.
    pub open spec fn created(&self, offset: Location) -> Droplet {
        Droplet {
            id: self.output,
            location: offset,
            dimensions: self.dimensions,
            volume: self.volume,
            destination: None,
            collision_group: self.output.id,
            pinned: false,
        }
    }
}

impl Command for Create {
    open spec fn input_ids(&self) -> Seq<DropletId> {
        Seq::empty()
    }

    open spec fn output_ids(&self) -> Seq<DropletId> {
        seq![self.output]
    }

    open spec fn bypassed(&self, ds: Seq<Droplet>) -> bool {
        false
    }

    /// A region of the droplet's dimensions.
    open spec fn region(&self, ds: Seq<Droplet>) -> Region {
        Region { height: self.dimensions.y as int, width: self.dimensions.x as int, port: None }
    }

    open spec fn input_locations(&self, ds: Seq<Droplet>) -> Seq<Location> {
        Seq::empty()
    }

    /// The droplet's location, if one was given.
    open spec fn anchor(&self, ds: Seq<Droplet>) -> Option<Location> {
        if self.trusted {
            Some(self.location)
        } else {
            None
        }
    }

    open spec fn requested(&self, ds: Seq<Droplet>) -> Seq<Droplet> {
        ds
    }

    open spec fn pre_ran(&self, ds: Seq<Droplet>, offset: Location) -> Seq<Droplet> {
        ds
    }

    /// The new droplet fills the region.
    open spec fn ran(&self, ds: Seq<Droplet>, offset: Location) -> Seq<Droplet> {
        ds.push(self.created(offset))
    }

    /// One tick, which shows the new droplet.
    open spec fn run_frames(&self, ds: Seq<Droplet>, offset: Location) -> Seq<Seq<Droplet>> {
        seq![self.ran(ds, offset)]
    }

    open spec fn concluded(&self, grid: &Grid, ds: Seq<Droplet>, p: Placement) -> Self {
        *self
    }

    open spec fn can_request(&self, gridview: &GridView) -> bool {
        &&& gridview.wf()
        &&& 1 <= self.dimensions.y <= MAX_DIM
        &&& 1 <= self.dimensions.x <= MAX_DIM
    }

    open spec fn can_pre_run(&self, subview: &GridSubView) -> bool {
        self.can_run(subview)
    }

    open spec fn can_run(&self, subview: &GridSubView) -> bool {
        &&& subview.wf()
        &&& subview.backing_gridview.wf()
        &&& subview.ids@.len() == 0
        &&& subview.placement.height == self.dimensions.y
        &&& subview.placement.width == self.dimensions.x
        &&& 1 <= self.dimensions.y
        &&& 1 <= self.dimensions.x
        &&& calm(subview.droplets())
        &&& fresh(seq![self.output], subview.droplets())
    }

    open spec fn can_finalize(&self) -> bool {
        true
    }

    fn input_droplets(&self) -> (ids: Vec<DropletId>) {
        Vec::new()
    }

    fn output_droplets(&self) -> (ids: Vec<DropletId>) {
        vec![self.output]
    }

    fn bypass(&self, gridview: &GridView) -> (skip: bool) {
        false
    }

    /// Asks for a region of the droplet's dimensions, at the droplet's
    /// location if one was given.
    fn request(&self, gridview: &mut GridView) -> (req: CommandRequest) {
        let grid = Grid::rectangle(self.dimensions.y as usize, self.dimensions.x as usize);
        CommandRequest {
            shape: grid,
            input_locations: Vec::new(),
            trusted: self.trusted,
            origin: self.location,
        }
    }

    fn pre_run(&self, subview: &mut GridSubView) {
    }

    /// Inserts the droplet so that it fills the region, and ticks.
    fn run(&mut self, subview: &mut GridSubView)
        ensures
            *final(self) == *old(self),
    {
        let ghost ds0 = subview.droplets();
        let ghost ticks = subview.backing_gridview.ticks();
        proof {
            assert(seq![self.output][0] == self.output);
            assert(!has_droplet(ds0, self.output));
        }
        subview.insert(
            Droplet::new(self.output, self.volume, Location { y: 0, x: 0 }, self.dimensions),
        );
        proof {
            let ds = subview.droplets();
            let last = ds.len() - 1;
            assert(subview.ids@ =~= seq![self.output]);
            assert forall|i: int| 0 <= i < ds.len() && subview.owns((#[trigger] ds[i]).id) implies i
                == last by {
                assert(ds[i].id == subview.ids@[0]);
                if i != last {
                    assert(ds[i].id != ds[last].id);
                }
            }
            assert(subview.contained());
            subview.lemma_contained_can_tick();
            assert forall|i: int| 0 <= i < ds0.len() implies (#[trigger] ds0[i]).collision_group
                != ds[last].collision_group by {
                assert(seq![self.output][0].id != ds0[i].collision_group);
            }
            lemma_calm_after_push(ds0, ds[last]);
        }
        subview.tick();
        proof {
            assert(subview.backing_gridview.ticks() =~= ticks + self.run_frames(
                ds0,
                subview.placement.offset,
            ));
            lemma_among(self.input_ids(), self.output_ids(), self.output);
            lemma_untouched_push(
                ds0,
                self.created(subview.placement.offset),
                self.input_ids() + self.output_ids(),
            );
        }
    }

    fn finalize(&mut self, snapshot: &Snapshot) -> (effects: Vec<Effect>)
        ensures
            effects@.len() == 0,
            *final(self) == *old(self),
    {
        Vec::new()
    }

    fn abort(&mut self, err: PlanError) -> (effects: Vec<Effect>)
        ensures
            effects@.len() == 0,
            *final(self) == *old(self),
    {
        Vec::new()
    }

    proof fn lemma_staged(&self, before: &GridView, subview: &GridSubView) {
        lemma_delivered_none(before.droplets(), Seq::empty(), subview.placement);
    }

    proof fn lemma_ticks_immaterial(&self, a: &GridSubView, b: &GridSubView) {
    }
}

//
// Flush
//

/// What a flush reports: the droplets of the process, or why the flush could
/// not be planned.
pub type FlushResult = Result<Vec<DropletInfo>, PlanError>;

/// Waits for everything before it and reports the droplets of one process.
#[derive(Debug)]
pub struct Flush {
    pub pid: ProcessId,
}

impl Flush {
    /// A flush on behalf of the process `pid`.
    pub fn new(pid: ProcessId) -> (f: Flush)
        ensures
            f.pid == pid,
    {
        Flush { pid }
    }
}

impl Command for Flush {
    open spec fn input_ids(&self) -> Seq<DropletId> {
        Seq::empty()
    }

    open spec fn output_ids(&self) -> Seq<DropletId> {
        Seq::empty()
    }

    open spec fn bypassed(&self, ds: Seq<Droplet>) -> bool {
        false
    }

    /// A region without cells.
    open spec fn region(&self, ds: Seq<Droplet>) -> Region {
        Region { height: 0, width: 0, port: None }
    }

    open spec fn input_locations(&self, ds: Seq<Droplet>) -> Seq<Location> {
        Seq::empty()
    }

    open spec fn anchor(&self, ds: Seq<Droplet>) -> Option<Location> {
        None
    }

    open spec fn requested(&self, ds: Seq<Droplet>) -> Seq<Droplet> {
        ds
    }

    open spec fn pre_ran(&self, ds: Seq<Droplet>, offset: Location) -> Seq<Droplet> {
        ds
    }

    open spec fn ran(&self, ds: Seq<Droplet>, offset: Location) -> Seq<Droplet> {
        ds
    }

    /// One tick.
    open spec fn run_frames(&self, ds: Seq<Droplet>, offset: Location) -> Seq<Seq<Droplet>> {
        seq![ds]
    }

    open spec fn concluded(&self, grid: &Grid, ds: Seq<Droplet>, p: Placement) -> Self {
        *self
    }

    open spec fn can_request(&self, gridview: &GridView) -> bool {
        gridview.wf()
    }

    open spec fn can_pre_run(&self, subview: &GridSubView) -> bool {
        self.can_run(subview)
    }

    open spec fn can_run(&self, subview: &GridSubView) -> bool {
        subview.backing_gridview.wf() && calm(subview.droplets())
    }

    open spec fn can_finalize(&self) -> bool {
        true
    }

    fn input_droplets(&self) -> (ids: Vec<DropletId>) {
        Vec::new()
    }

    fn output_droplets(&self) -> (ids: Vec<DropletId>) {
        Vec::new()
    }

    fn bypass(&self, gridview: &GridView) -> (skip: bool) {
        false
    }

    /// Asks for a region without cells.
    fn request(&self, gridview: &mut GridView) -> (req: CommandRequest) {
        CommandRequest {
            shape: Grid::rectangle(0, 0),
            input_locations: Vec::new(),
            trusted: false,
            origin: Location { y: 0, x: 0 },
        }
    }

    fn pre_run(&self, subview: &mut GridSubView) {
    }

    /// Ticks once; no droplet changes.
    fn run(&mut self, subview: &mut GridSubView)
        ensures
            *final(self) == *old(self),
    {
        let ghost ticks = subview.backing_gridview.ticks();
        subview.tick();
        proof {
            assert(subview.backing_gridview.ticks() =~= ticks + seq![subview.droplets()]);
        }
    }

    /// Reports the droplets of the process as the snapshot has them.
    fn finalize(&mut self, snapshot: &Snapshot) -> (effects: Vec<Effect>)
        ensures
            *final(self) == *old(self),
            effects@.len() == 1,
            effects@[0].reports(old(self).pid, infos(snapshot.droplets@, Some(old(self).pid))),
    {
        let info = snapshot.droplet_info(Some(self.pid));
        let mut effects: Vec<Effect> = Vec::new();
        effects.push(Effect::Report { pid: self.pid, result: Ok(info) });
        effects
    }

    /// Reports the failure to the process.
    fn abort(&mut self, err: PlanError) -> (effects: Vec<Effect>)
        ensures
            *final(self) == *old(self),
            effects@.len() == 1,
            effects@[0].reports_failure(old(self).pid, err),
    {
        let mut effects: Vec<Effect> = Vec::new();
        effects.push(Effect::Report { pid: self.pid, result: Err(err) });
        effects
    }

    proof fn lemma_staged(&self, before: &GridView, subview: &GridSubView) {
        lemma_delivered_none(before.droplets(), Seq::empty(), subview.placement);
    }

    proof fn lemma_ticks_immaterial(&self, a: &GridSubView, b: &GridSubView) {
    }
}

//
//  Move
//

/// Brings a droplet to a given location.
#[derive(Debug)]
pub struct Move {
    pub input: DropletId,
    pub output: DropletId,
    pub destination: Location,
}

impl Move {
    /// A command that brings the droplet `in_id` to `loc`, where it goes on
    /// under the name `out_id`.
    pub fn new(in_id: DropletId, loc: Location, out_id: DropletId) -> (r: PuddleResult<Move>)
        ensures
            r == Ok::<Move, crate::process::PuddleError>(
                Move { input: in_id, output: out_id, destination: loc },
            ),
    {
        Ok(Move { input: in_id, output: out_id, destination: loc })
    }
}

/// The droplets once the droplet at place `i` has taken the name `id` and
/// the last place.
pub open spec fn renamed(ds: Seq<Droplet>, i: int, id: DropletId) -> Seq<Droplet> {
    ds.remove(i).push(Droplet { id, ..ds[i] })
}

/// What a command needs of the view to give its one input droplet the name
/// of its one output.
pub open spec fn can_rename(input: DropletId, output: DropletId, subview: &GridSubView) -> bool {
    &&& subview.wf()
    &&& subview.backing_gridview.wf()
    &&& calm(subview.droplets())
    &&& subview.owns(input)
    &&& subview.placement.contains_cell(
        subview.droplets()[index_of(subview.droplets(), input)].location,
    )
    &&& !has_droplet(subview.droplets(), output)
}

/// Takes the droplet `old_id` off the board and puts it back under the name
/// `new_id`.
pub fn rename(subview: &mut GridSubView, old_id: DropletId, new_id: DropletId)
    requires
        old(subview).wf(),
        old(subview).backing_gridview.wf(),
        old(subview).owns(old_id),
        old(subview).placement.contains_cell(
            old(subview).droplets()[index_of(old(subview).droplets(), old_id)].location,
        ),
        !has_droplet(old(subview).droplets(), new_id),
    ensures
        final(subview).wf(),
        final(subview).backing_gridview.wf(),
        calm(old(subview).droplets()) ==> calm(final(subview).droplets()),
        keeps_bounds(old(subview).droplets(), final(subview).droplets(), seq![new_id]),
        untouched(old(subview).droplets(), final(subview).droplets(), seq![old_id, new_id]),
        final(subview).droplets() == renamed(
            old(subview).droplets(),
            index_of(old(subview).droplets(), old_id),
            new_id,
        ),
        final(subview).ids@ == old(subview).ids@.remove(old(subview).ids@.index_of(old_id)).push(
            new_id,
        ),
        final(subview).placement == old(subview).placement,
        final(subview).backing_gridview.grid == old(subview).backing_gridview.grid,
        final(subview).backing_gridview.frames == old(subview).backing_gridview.frames,
{
    let ghost ds0 = subview.droplets();
    let ghost i = index_of(ds0, old_id);
    proof {
        let k = choose|k: int| 0 <= k < subview.ids@.len() && subview.ids@[k] == old_id;
        assert(has_droplet(ds0, subview.ids@[k]));
        assert(0 <= i < ds0.len() && ds0[i].id == old_id);
        assert(seq![old_id, new_id][0] == old_id && seq![old_id, new_id][1] == new_id);
        lemma_has_after_remove(ds0, i, new_id);
        lemma_rename_keeps_wf(
            ds0,
            i,
            new_id,
            subview.backing_gridview.grid.height() as int,
            subview.backing_gridview.grid.width() as int,
        );
        if calm(ds0) {
            lemma_calm_after_remove(ds0, i);
            lemma_remove_index(ds0, i);
            let rest = ds0.remove(i);
            assert forall|k: int| 0 <= k < rest.len() implies (#[trigger] rest[k]).collision_group
                != ds0[i].collision_group by {
                let k0 = if k < i {
                    k
                } else {
                    k + 1
                };
                assert(ds0[k0].collision_group != ds0[i].collision_group);
            }
            lemma_calm_after_push(rest, Droplet { id: new_id, ..ds0[i] });
        }
    }
    let mut d = subview.remove(&old_id);
    d.id = new_id;
    subview.insert(d);
    proof {
        let after = subview.droplets();
        assert(after == renamed(ds0, i, new_id));
        assert forall|n: int| bounded(ds0, n) && below(seq![new_id], n) implies #[trigger] bounded(
            after,
            n,
        ) by {
            assert(seq![new_id][0] == new_id);
            lemma_bounded_after_remove(ds0, i, n);
            assert(ds0[i].collision_group < n);
        }
        lemma_untouched_renamed(ds0, i, new_id, seq![old_id, new_id]);
    }
}

/// Giving a droplet a new name leaves the droplets untouched that bear
/// neither its old name nor its new one.
pub proof fn lemma_untouched_renamed(ds: Seq<Droplet>, i: int, id: DropletId, ids: Seq<DropletId>)
    requires
        0 <= i < ds.len(),
        ids.contains(ds[i].id),
        ids.contains(id),
    ensures
        untouched(ds, renamed(ds, i, id), ids),
{
    lemma_untouched_remove(ds, i, ids);
    lemma_untouched_push(ds.remove(i), Droplet { id, ..ds[i] }, ids);
    lemma_untouched_twice(ds, ds.remove(i), renamed(ds, i, id), ids, ids, ids);
}

/// Whatever is among the inputs or among the outputs is among the names of
/// both.
pub proof fn lemma_among(inputs: Seq<DropletId>, outputs: Seq<DropletId>, id: DropletId)
    requires
        inputs.contains(id) || outputs.contains(id),
    ensures
        (inputs + outputs).contains(id),
{
    let both = inputs + outputs;
    if inputs.contains(id) {
        let k = choose|k: int| 0 <= k < inputs.len() && inputs[k] == id;
        assert(both[k] == id);
    } else {
        let k = choose|k: int| 0 <= k < outputs.len() && outputs[k] == id;
        assert(both[inputs.len() + k] == id);
    }
}

/// What a command with a single input finds once the router has brought the
/// input to the position `loc` of the region: the input stands there, inside
/// the region; nothing else has changed; and the droplets are calm.
pub proof fn lemma_staged_single(
    before: &GridView,
    subview: &GridSubView,
    in_id: DropletId,
    loc: Location,
)
    requires
        before.settled(),
        has_droplet(before.droplets(), in_id),
        subview.wf(),
        subview.ids@ == seq![in_id],
        subview.droplets() == delivered(
            before.droplets(),
            seq![in_id],
            seq![loc],
            subview.placement,
        ),
        subview.placement.covers(loc),
    ensures
        index_of(subview.droplets(), in_id) == index_of(before.droplets(), in_id),
        subview.droplets() == before.droplets().update(
            index_of(before.droplets(), in_id),
            Droplet {
                location: subview.placement.to_board(loc),
                ..before.droplets()[index_of(before.droplets(), in_id)]
            },
        ),
        subview.owns(in_id),
        subview.placement.contains_cell(
            subview.droplets()[index_of(subview.droplets(), in_id)].location,
        ),
        calm(subview.droplets()),
        forall|id: DropletId|
            has_droplet(subview.droplets(), id) == has_droplet(before.droplets(), id),
        forall|ids: Seq<DropletId>|
            fresh(ids, before.droplets()) ==> #[trigger] fresh(ids, subview.droplets()),
{
    let ds0 = before.droplets();
    let ds = subview.droplets();
    let i = index_of(ds0, in_id);
    lemma_delivered_one(ds0, in_id, loc, subview.placement);
    lemma_same_names(ds0, ds, in_id);
    assert(subview.ids@[0] == in_id);
    assert(subview.placement.wf());
    assert forall|id: DropletId| has_droplet(ds, id) == has_droplet(ds0, id) by {
        lemma_same_names(ds0, ds, id);
    }
    assert forall|a: int, b: int|
        #![trigger ds[a], ds[b]]
        0 <= a < ds.len() && 0 <= b < ds.len() && a != b implies ds[a].collision_group
        != ds[b].collision_group by {
        assert(ds0[a].collision_group != ds0[b].collision_group);
    }
    assert forall|a: int| 0 <= a < ds.len() implies (#[trigger] ds[a]).destination is None
        && !ds[a].pinned by {
        assert(ds0[a].destination is None);
    }
    assert forall|ids: Seq<DropletId>| fresh(ids, ds0) implies #[trigger] fresh(ids, ds) by {
        assert forall|k: int, a: int| 0 <= k < ids.len() && 0 <= a < ds.len() implies (
        #[trigger] ids[k]).id != (#[trigger] ds[a]).collision_group by {
            assert(ids[k].id != ds0[a].collision_group);
        }
    }
}

impl Command for Move {
    open spec fn input_ids(&self) -> Seq<DropletId> {
        seq![self.input]
    }

    open spec fn output_ids(&self) -> Seq<DropletId> {
        seq![self.output]
    }

    open spec fn bypassed(&self, ds: Seq<Droplet>) -> bool {
        false
    }

    /// A region of the droplet's dimensions.
    open spec fn region(&self, ds: Seq<Droplet>) -> Region {
        let d = ds[index_of(ds, self.input)];
        Region { height: d.dimensions.y as int, width: d.dimensions.x as int, port: None }
    }

    /// The droplet fills the region.
    open spec fn input_locations(&self, ds: Seq<Droplet>) -> Seq<Location> {
        seq![Location { y: 0, x: 0 }]
    }

    /// The region lies at the destination.
    open spec fn anchor(&self, ds: Seq<Droplet>) -> Option<Location> {
        Some(self.destination)
    }

    open spec fn requested(&self, ds: Seq<Droplet>) -> Seq<Droplet> {
        ds
    }

    open spec fn pre_ran(&self, ds: Seq<Droplet>, offset: Location) -> Seq<Droplet> {
        ds
    }

    /// The droplet goes on under its new name.
    open spec fn ran(&self, ds: Seq<Droplet>, offset: Location) -> Seq<Droplet> {
        renamed(ds, index_of(ds, self.input), self.output)
    }

    /// One tick, which shows the droplet under its new name.
    open spec fn run_frames(&self, ds: Seq<Droplet>, offset: Location) -> Seq<Seq<Droplet>> {
        seq![self.ran(ds, offset)]
    }

    open spec fn concluded(&self, grid: &Grid, ds: Seq<Droplet>, p: Placement) -> Self {
        *self
    }

    open spec fn can_request(&self, gridview: &GridView) -> bool {
        &&& gridview.wf()
        &&& has_droplet(gridview.droplets(), self.input)
    }

    open spec fn can_pre_run(&self, subview: &GridSubView) -> bool {
        self.can_run(subview)
    }

    open spec fn can_run(&self, subview: &GridSubView) -> bool {
        can_rename(self.input, self.output, subview)
    }

    open spec fn can_finalize(&self) -> bool {
        true
    }

    fn input_droplets(&self) -> (ids: Vec<DropletId>) {
        vec![self.input]
    }

    fn output_droplets(&self) -> (ids: Vec<DropletId>) {
        vec![self.output]
    }

    fn bypass(&self, gridview: &GridView) -> (skip: bool) {
        false
    }

    /// Asks for a region of the droplet's dimensions at the destination,
    /// with the droplet in its top-left cell.
    fn request(&self, gridview: &mut GridView) -> (req: CommandRequest) {
        let old_id = self.input;
        let dim = gridview.snapshot().get(&old_id).dimensions;
        proof {
            let d = gridview.droplets()[index_of(gridview.droplets(), old_id)];
            assert(d.within(gridview.grid.height() as int, gridview.grid.width() as int));
        }
        CommandRequest {
            shape: Grid::rectangle(dim.y as usize, dim.x as usize),
            input_locations: vec![Location { y: 0, x: 0 }],
            trusted: true,
            origin: self.destination,
        }
    }

    fn pre_run(&self, subview: &mut GridSubView) {
    }

    /// Gives the droplet, which the router has brought to its destination,
    /// its new name, and ticks.
    fn run(&mut self, subview: &mut GridSubView)
        ensures
            *final(self) == *old(self),
    {
        let ghost ticks = subview.backing_gridview.ticks();
        let old_id = self.input;
        let new_id = self.output;
        rename(subview, old_id, new_id);
        subview.tick();
        proof {
            assert(subview.backing_gridview.ticks() =~= ticks + seq![subview.droplets()]);
            assert(self.input_ids() + self.output_ids() =~= seq![old_id, new_id]);
        }
    }

    fn finalize(&mut self, snapshot: &Snapshot) -> (effects: Vec<Effect>)
        ensures
            effects@.len() == 0,
            *final(self) == *old(self),
    {
        Vec::new()
    }

    fn abort(&mut self, err: PlanError) -> (effects: Vec<Effect>)
        ensures
            effects@.len() == 0,
            *final(self) == *old(self),
    {
        Vec::new()
    }

    proof fn lemma_staged(&self, before: &GridView, subview: &GridSubView) {
        assert(seq![self.input][0] == self.input);
        assert(seq![self.output][0] == self.output);
        let d = before.droplets()[index_of(before.droplets(), self.input)];
        assert(d.within(before.grid.height() as int, before.grid.width() as int));
        lemma_staged_single(before, subview, self.input, Location { y: 0, x: 0 });
    }

    proof fn lemma_ticks_immaterial(&self, a: &GridSubView, b: &GridSubView) {
    }
}

//
//  Combine
//

/// Merges two droplets into one, the second stacked on top of the first.
#[derive(Debug)]
pub struct Combine {
    pub input0: DropletId,
    pub input1: DropletId,
    pub output: DropletId,
    pub pin_d0: bool,
}

impl Combine {
    /// A command that merges the droplets `id1` and `id2` into `out_id`,
    /// wherever the board has room for the merged droplet.
    pub fn new(id1: DropletId, id2: DropletId, out_id: DropletId) -> (r: PuddleResult<Combine>)
        ensures
            r == Ok::<Combine, crate::process::PuddleError>(
                Combine { input0: id1, input1: id2, output: out_id, pin_d0: false },
            ),
    {
        Ok(Combine { input0: id1, input1: id2, output: out_id, pin_d0: false })
    }

    /// A command that merges `id2` into `id1`, which is pinned and stays
    /// where it is.
    pub fn combine_into(id1: DropletId, id2: DropletId, out_id: DropletId) -> (r: PuddleResult<
        Combine,
    >)
        ensures
            r == Ok::<Combine, crate::process::PuddleError>(
                Combine { input0: id1, input1: id2, output: out_id, pin_d0: true },
            ),
    {
        Ok(Combine { input0: id1, input1: id2, output: out_id, pin_d0: true })
    }

    /// The stacking rule: `d1` sits on top of `d0`. The merged footprint
    /// begins as many rows above `d0` as `d1` is high, in the column of `d0`;
    /// it is as high as both together and as wide as the wider one. The
    /// volumes add up, and stay at the largest count where the sum exceeds it.
    pub open spec fn stacked(d0: Droplet, d1: Droplet) -> SimpleBlob {
        SimpleBlob {
            location: Location {
                y: (d0.location.y - d1.dimensions.y) as i32,
                x: d0.location.x,
            },
            dimensions: Location {
                y: (d0.dimensions.y + d1.dimensions.y) as i32,
                x: if d0.dimensions.x >= d1.dimensions.x {
                    d0.dimensions.x
                } else {
                    d1.dimensions.x
                },
            },
            volume: if d0.volume + d1.volume > u64::MAX {
                u64::MAX
            } else {
                (d0.volume + d1.volume) as u64
            },
        }
    }

    /// The footprint and volume of the droplet that `d0` and `d1` merge into.
    pub fn combined(&self, d0: &Droplet, d1: &Droplet) -> (blob: SimpleBlob)
        requires
            i32::MIN <= d0.location.y - d1.dimensions.y <= i32::MAX,
            i32::MIN <= d0.dimensions.y + d1.dimensions.y <= i32::MAX,
        ensures
            blob == Self::stacked(*d0, *d1),
    {
        SimpleBlob {
            location: Location { y: d0.location.y - d1.dimensions.y, x: d0.location.x },
            dimensions: Location {
                y: d0.dimensions.y + d1.dimensions.y,
                x: if d0.dimensions.x >= d1.dimensions.x {
                    d0.dimensions.x
                } else {
                    d1.dimensions.x
                },
            },
            volume: d0.volume.saturating_add(d1.volume),
        }
    }

    /// Where no sum exceeds the largest count, three droplets that are
    /// merged one after the other have the volume of all three together.
    pub proof fn lemma_volumes_add(d0: Droplet, d1: Droplet, d2: Droplet, merged: Droplet)
        requires
            d0.volume + d1.volume + d2.volume <= u64::MAX,
            merged.volume == Self::stacked(d0, d1).volume,
        ensures
            Self::stacked(d0, d1).volume == d0.volume + d1.volume,
            Self::stacked(merged, d2).volume == d0.volume + d1.volume + d2.volume,
    {
    }

    /// The merged droplet as it stands once the region lies at `offset`.
    pub open spec fn merged_droplet(&self, d0: Droplet, d1: Droplet, offset: Location) -> Droplet {
        Droplet {
            id: self.output,
            location: offset,
            dimensions: Self::stacked(d0, d1).dimensions,
            volume: Self::stacked(d0, d1).volume,
            destination: None,
            collision_group: self.output.id,
            pinned: false,
        }
    }

    /// The droplets once the two inputs have left and the merged droplet has
    /// joined, the region lying at `offset`.
    pub open spec fn merged(&self, ds: Seq<Droplet>, offset: Location) -> Seq<Droplet> {
        let i0 = index_of(ds, self.input0);
        let rest = ds.remove(i0);
        let i1 = index_of(rest, self.input1);
        rest.remove(i1).push(self.merged_droplet(ds[i0], rest[i1], offset))
    }

    /// The droplets once the first input has joined the collision group of
    /// the second, and has been pinned if the command pins it.
    pub open spec fn grouped(&self, ds: Seq<Droplet>) -> Seq<Droplet> {
        let i0 = index_of(ds, self.input0);
        let i1 = index_of(ds, self.input1);
        ds.update(
            i0,
            Droplet {
                collision_group: ds[i1].collision_group,
                pinned: ds[i0].pinned || self.pin_d0,
                ..ds[i0]
            },
        )
    }
}

impl Command for Combine {
    open spec fn input_ids(&self) -> Seq<DropletId> {
        seq![self.input0, self.input1]
    }

    open spec fn output_ids(&self) -> Seq<DropletId> {
        seq![self.output]
    }

    /// The merge has happened already if the output is on the board and the
    /// inputs are not.
    open spec fn bypassed(&self, ds: Seq<Droplet>) -> bool {
        &&& has_droplet(ds, self.output)
        &&& !has_droplet(ds, self.input0)
        &&& !has_droplet(ds, self.input1)
    }

    /// A region of the merged footprint.
    open spec fn region(&self, ds: Seq<Droplet>) -> Region {
        let d0 = ds[index_of(ds, self.input0)];
        let d1 = ds[index_of(ds, self.input1)];
        Region {
            height: d0.dimensions.y + d1.dimensions.y,
            width: Self::stacked(d0, d1).dimensions.x as int,
            port: None,
        }
    }

    /// The second input at the top of the region, the first below it.
    open spec fn input_locations(&self, ds: Seq<Droplet>) -> Seq<Location> {
        let d1 = ds[index_of(ds, self.input1)];
        seq![Location { y: d1.dimensions.y, x: 0 }, Location { y: 0, x: 0 }]
    }

    /// A command that pins the first input names the place that leaves the
    /// first input where it is.
    open spec fn anchor(&self, ds: Seq<Droplet>) -> Option<Location> {
        let d0 = ds[index_of(ds, self.input0)];
        let d1 = ds[index_of(ds, self.input1)];
        if self.pin_d0 {
            Some(Self::stacked(d0, d1).location)
        } else {
            None
        }
    }

    open spec fn requested(&self, ds: Seq<Droplet>) -> Seq<Droplet> {
        self.grouped(ds)
    }

    open spec fn pre_ran(&self, ds: Seq<Droplet>, offset: Location) -> Seq<Droplet> {
        self.merged(ds, offset)
    }

    open spec fn ran(&self, ds: Seq<Droplet>, offset: Location) -> Seq<Droplet> {
        ds
    }

    /// No tick.
    open spec fn run_frames(&self, ds: Seq<Droplet>, offset: Location) -> Seq<Seq<Droplet>> {
        Seq::empty()
    }

    open spec fn concluded(&self, grid: &Grid, ds: Seq<Droplet>, p: Placement) -> Self {
        *self
    }

    open spec fn can_request(&self, gridview: &GridView) -> bool {
        &&& self.input0 != self.input1
        &&& gridview.settled()
        &&& has_droplet(gridview.droplets(), self.input0)
        &&& has_droplet(gridview.droplets(), self.input1)
    }

    open spec fn can_pre_run(&self, subview: &GridSubView) -> bool {
        let ds = subview.droplets();
        let d0 = ds[index_of(ds, self.input0)];
        let d1 = ds[index_of(ds, self.input1)];
        &&& self.input0 != self.input1
        &&& subview.wf()
        &&& subview.ids@ =~= seq![self.input0, self.input1]
        &&& calm_but(ds, seq![self.input0, self.input1])
        &&& fresh(seq![self.output], ds)
        &&& 1 <= d0.dimensions.y
        &&& 1 <= d0.dimensions.x
        &&& 1 <= d1.dimensions.y
        &&& 1 <= d1.dimensions.x
        &&& subview.placement.height == d0.dimensions.y + d1.dimensions.y
        &&& subview.placement.width == Self::stacked(d0, d1).dimensions.x
        &&& d1.location == subview.placement.offset
        &&& d0.location.y == subview.placement.offset.y + d1.dimensions.y
        &&& d0.location.x == subview.placement.offset.x
    }

    open spec fn can_run(&self, subview: &GridSubView) -> bool {
        subview.backing_gridview.wf() && calm(subview.droplets())
    }

    open spec fn can_finalize(&self) -> bool {
        true
    }

    fn input_droplets(&self) -> (ids: Vec<DropletId>) {
        vec![self.input0, self.input1]
    }

    fn output_droplets(&self) -> (ids: Vec<DropletId>) {
        vec![self.output]
    }

    fn bypass(&self, gridview: &GridView) -> (skip: bool) {
        let droplets = gridview.snapshot();
        droplets.contains_key(&self.output) && !droplets.contains_key(&self.input0)
            && !droplets.contains_key(&self.input1)
    }

    /// Puts the first input into the collision group of the second, so that
    /// the two may touch, and pins it if the command pins it. Asks for a
    /// region of the merged footprint, with the second input at its top and
    /// the first below it. A command that pins the first input names the
    /// place of the region itself: the place that leaves the first input where
    /// it is.
    fn request(&self, gridview: &mut GridView) -> (req: CommandRequest) {
        let ghost ds = gridview.droplets();
        let ghost h = gridview.grid.height() as int;
        let ghost w = gridview.grid.width() as int;
        let id0 = self.input0;
        let id1 = self.input1;
        let i0 = gridview.snapshot.position(&id0).unwrap();
        let i1 = gridview.snapshot.position(&id1).unwrap();
        proof {
            lemma_index_of(ds, id0, i0 as int);
            lemma_index_of(ds, id1, i1 as int);
            gridview.lemma_settled_apart();
            assert(ds[i0 as int].within(h, w));
            assert(ds[i1 as int].within(h, w));
        }
        let d1 = gridview.snapshot.droplets[i1];
        let mut d0 = gridview.snapshot.droplets[i0];
        // the two must be free to touch
        d0.collision_group = d1.collision_group;
        if self.pin_d0 {
            d0.pinned = true;
        }
        gridview.snapshot.droplets.set(i0, d0);
        proof {
            let after = gridview.droplets();
            assert(after == self.grouped(ds));
            assert forall|a: int, b: int|
                #![trigger after[a], after[b]]
                0 <= a < after.len() && 0 <= b < after.len() && a != b implies after[a].id
                != after[b].id && !after[a].collides(after[b]) by {
                assert(ds[a].id != ds[b].id);
                assert(ds[a].apart(ds[b]));
            }
            assert forall|a: int| 0 <= a < after.len() implies (#[trigger] after[a]).within(
                h,
                w,
            ) by {
                assert(ds[a].within(h, w));
            }
            assert forall|a: int|
                0 <= a < ds.len() && !seq![self.input0, self.input1].contains(
                    (#[trigger] ds[a]).id,
                ) implies after[a] == ds[a] by {
                if a == i0 {
                    assert(self.input0 == ds[a].id);
                }
            }
        }
        let combined = self.combined(&d0, &d1);
        if self.pin_d0 {
            CommandRequest {
                shape: Grid::rectangle(
                    combined.dimensions.y as usize,
                    combined.dimensions.x as usize,
                ),
                input_locations: vec![
                    Location { y: d1.dimensions.y, x: 0 },
                    Location { y: 0, x: 0 },
                ],
                trusted: true,
                origin: combined.location,
            }
        } else {
            CommandRequest {
                shape: Grid::rectangle(
                    combined.dimensions.y as usize,
                    combined.dimensions.x as usize,
                ),
                input_locations: vec![
                    Location { y: d1.dimensions.y, x: 0 },
                    Location { y: 0, x: 0 },
                ],
                trusted: false,
                origin: Location { y: 0, x: 0 },
            }
        }
    }

    /// Takes the two inputs, which the router has stacked in the region, off
    /// the board and puts the merged droplet in their place.
    fn pre_run(&self, subview: &mut GridSubView)
        ensures
            final(subview).wf(),
            final(subview).ids@ == seq![self.output],
    {
        let in0 = self.input0;
        let in1 = self.input1;
        let out = self.output;
        let ghost ds = subview.droplets();
        let ghost i0 = index_of(ds, in0);
        let ghost i1 = index_of(ds, in1);
        let ghost j1 = if i1 < i0 {
            i1
        } else {
            i1 - 1
        };
        proof {
            assert(seq![self.input0, self.input1].len() == 2);
            assert(subview.ids@[0] == in0 && subview.ids@[1] == in1);
            assert(has_droplet(ds, subview.ids@[0]));
            assert(has_droplet(ds, subview.ids@[1]));
            assert(seq![self.output][0] == self.output);
            assert(!has_droplet(ds, self.output));
            lemma_has_after_remove(ds, i0, in1);
            lemma_has_after_remove(ds, i0, out);
            lemma_remove_index(ds, i0);
            let rest = ds.remove(i0);
            assert(rest[j1].id == in1);
            lemma_unique_after_remove(ds, i0);
            lemma_index_of(rest, in1, j1);
            lemma_has_after_remove(rest, j1, out);
            lemma_remove_index(rest, j1);
        }
        let d0 = subview.remove(&in0);
        let d1 = subview.remove(&in1);
        let ghost rest2 = subview.droplets();
        let combined = self.combined(&d0, &d1);
        subview.insert(combined.to_droplet(out));
        proof {
            let after = subview.droplets();
            let last = after.len() - 1;
            assert(subview.ids@ =~= seq![self.output]);
            assert(after == self.merged(ds, old(subview).placement.offset));
            assert forall|i: int|
                0 <= i < after.len() && subview.owns((#[trigger] after[i]).id) implies i
                == last by {
                assert(after[i].id == subview.ids@[0]);
                if i != last {
                    assert(after[i].id != after[last].id);
                }
            }
            assert(subview.contained());
            subview.lemma_contained_can_tick();
            // what is left of the droplets is calm, and the new group is new
            let rest = ds.remove(i0);
            assert forall|k: int| 0 <= k < rest2.len() implies !seq![self.input0, self.input1].contains(
                (#[trigger] rest2[k]).id,
            ) && rest2[k].collision_group != after[last].collision_group by {
                let k1 = if k < j1 {
                    k
                } else {
                    k + 1
                };
                let k0 = if k1 < i0 {
                    k1
                } else {
                    k1 + 1
                };
                assert(rest2[k] == rest[k1]);
                assert(rest[k1] == ds[k0]);
                assert(ds[k0].id != ds[i0].id);
                assert(ds[k0].id != ds[i1].id);
                assert forall|m: int|
                    0 <= m < seq![self.input0, self.input1].len() implies seq![
                    self.input0,
                    self.input1,
                ][m] != ds[k0].id by {
                    assert(m == 0 || m == 1);
                }
                assert(self.output.id != ds[k0].collision_group);
            }
            Self::lemma_rest_is_calm(ds, rest2, seq![self.input0, self.input1], i0, j1);
            lemma_calm_after_push(rest2, after[last]);
            // nothing else has been touched
            let ids = self.input_ids() + self.output_ids();
            lemma_among(self.input_ids(), self.output_ids(), self.input0);
            lemma_among(self.input_ids(), self.output_ids(), self.input1);
            lemma_among(self.input_ids(), self.output_ids(), self.output);
            lemma_untouched_remove(ds, i0, ids);
            lemma_untouched_remove(rest, j1, ids);
            lemma_untouched_push(rest2, after[last], ids);
            lemma_untouched_twice(ds, rest, rest2, ids, ids, ids);
            lemma_untouched_twice(ds, rest2, after, ids, ids, ids);
        }
    }

    /// Nothing is left to do: the merged droplet is on the board since
    /// `pre_run`, and the last tick of routing has committed it.
    fn run(&mut self, subview: &mut GridSubView)
        ensures
            *final(self) == *old(self),
            *final(subview) == *old(subview),
    {
        proof {
            assert(subview.backing_gridview.ticks() + Seq::<Seq<Droplet>>::empty()
                =~= subview.backing_gridview.ticks());
        }
    }

    fn finalize(&mut self, snapshot: &Snapshot) -> (effects: Vec<Effect>)
        ensures
            effects@.len() == 0,
            *final(self) == *old(self),
    {
        Vec::new()
    }

    fn abort(&mut self, err: PlanError) -> (effects: Vec<Effect>)
        ensures
            effects@.len() == 0,
            *final(self) == *old(self),
    {
        Vec::new()
    }

    proof fn lemma_staged(&self, before: &GridView, subview: &GridSubView) {
        let ds0 = before.droplets();
        let ds1 = self.grouped(ds0);
        let ds = subview.droplets();
        let in0 = self.input0;
        let in1 = self.input1;
        let i0 = index_of(ds0, in0);
        let i1 = index_of(ds0, in1);
        let locs = self.input_locations(ds0);
        let h = before.grid.height() as int;
        let w = before.grid.width() as int;
        assert(ds0[i0].within(h, w) && ds0[i1].within(h, w));
        assert(ds0[i0].id != ds0[i1].id);
        lemma_same_names(ds0, ds1, in0);
        lemma_same_names(ds0, ds1, in1);
        lemma_same_names(ds0, ds1, self.output);
        lemma_delivered_at(ds1, self.input_ids(), locs, subview.placement, 0);
        lemma_delivered_at(ds1, self.input_ids(), locs, subview.placement, 1);
        lemma_delivered_names(ds1, self.input_ids(), locs, subview.placement, self.output);
        assert(subview.placement.wf());
        assert forall|i: int|
            0 <= i < ds.len() && !seq![self.input0, self.input1].contains((#[trigger] ds[i]).id) implies ds[i]
            == ds0[i] by {
            assert(ds1[i].id == ds0[i].id);
            if i == i0 {
                assert(self.input0 == ds0[i].id);
            }
        }
        assert forall|i: int|
            0 <= i < ds.len() && !seq![self.input0, self.input1].contains((#[trigger] ds[i]).id)
                implies ds[i].destination is None && !ds[i].pinned by {
            assert(ds0[i].destination is None);
        }
        assert forall|i: int, j: int|
            #![trigger ds[i], ds[j]]
            0 <= i < ds.len() && 0 <= j < ds.len() && i != j && !seq![
                self.input0,
                self.input1,
            ].contains(ds[i].id) && !seq![self.input0, self.input1].contains(ds[j].id)
                implies ds[i].collision_group != ds[j].collision_group by {
            assert(ds0[i].collision_group != ds0[j].collision_group);
        }
        assert forall|k: int, i: int|
            0 <= k < seq![self.output].len() && 0 <= i < ds.len() implies (
        #[trigger] seq![self.output][k]).id != (#[trigger] ds[i]).collision_group by {
            assert(self.output_ids()[k].id != ds0[i].collision_group);
            assert(self.output_ids()[k].id != ds0[i1].collision_group);
        }
    }

    proof fn lemma_ticks_immaterial(&self, a: &GridSubView, b: &GridSubView) {
    }
}

impl Combine {
    /// What is left once the inputs have left is calm, if the droplets
    /// other than the inputs were.
    proof fn lemma_rest_is_calm(
        ds: Seq<Droplet>,
        rest: Seq<Droplet>,
        inputs: Seq<DropletId>,
        i0: int,
        j1: int,
    )
        requires
            calm_but(ds, inputs),
            0 <= i0 < ds.len(),
            0 <= j1 < ds.len() - 1,
            rest == ds.remove(i0).remove(j1),
            forall|k: int| 0 <= k < rest.len() ==> !inputs.contains((#[trigger] rest[k]).id),
        ensures
            calm(rest),
    {
        lemma_remove_index(ds, i0);
        let mid = ds.remove(i0);
        lemma_remove_index(mid, j1);
        assert forall|a: int, b: int|
            #![trigger rest[a], rest[b]]
            0 <= a < rest.len() && 0 <= b < rest.len() && a != b implies rest[a].collision_group
            != rest[b].collision_group by {
            let a1 = if a < j1 {
                a
            } else {
                a + 1
            };
            let a0 = if a1 < i0 {
                a1
            } else {
                a1 + 1
            };
            let b1 = if b < j1 {
                b
            } else {
                b + 1
            };
            let b0 = if b1 < i0 {
                b1
            } else {
                b1 + 1
            };
            assert(rest[a] == mid[a1] && mid[a1] == ds[a0]);
            assert(rest[b] == mid[b1] && mid[b1] == ds[b0]);
            assert(!inputs.contains(ds[a0].id));
            assert(!inputs.contains(ds[b0].id));
            assert(ds[a0].collision_group != ds[b0].collision_group);
        }
        assert forall|a: int| 0 <= a < rest.len() implies (#[trigger] rest[a]).destination is None
            && !rest[a].pinned by {
            let a1 = if a < j1 {
                a
            } else {
                a + 1
            };
            let a0 = if a1 < i0 {
                a1
            } else {
                a1 + 1
            };
            assert(rest[a] == mid[a1] && mid[a1] == ds[a0]);
            assert(!inputs.contains(ds[a0].id));
        }
    }
}

//
//  Agitate
//

/// Jostles a droplet to mix what is in it.
#[derive(Debug)]
pub struct Agitate {
    pub input: DropletId,
    pub output: DropletId,
    pub n_agitation_loops: u32,
}

/// The free rows and columns that a droplet needs beside it to be jostled.
pub const AGITATE_PADDING: usize = 1;

/// The droplets once the droplet at place `i` has moved by `dy` rows and `dx`
/// columns.
pub open spec fn moved_by(ds: Seq<Droplet>, i: int, dy: int, dx: int) -> Seq<Droplet> {
    ds.update(
        i,
        Droplet {
            location: Location {
                y: (ds[i].location.y + dy) as i32,
                x: (ds[i].location.x + dx) as i32,
            },
            ..ds[i]
        },
    )
}

/// The frames of one round of jostling the droplet at place `i`: one step
/// south, one east, one north, and one west, which brings it back.
pub open spec fn jostle(ds: Seq<Droplet>, i: int) -> Seq<Seq<Droplet>> {
    seq![moved_by(ds, i, 1, 0), moved_by(ds, i, 1, 1), moved_by(ds, i, 0, 1), ds]
}

/// The frames of `n` rounds of jostling.
pub open spec fn jostles(ds: Seq<Droplet>, i: int, n: nat) -> Seq<Seq<Droplet>>
    decreases n,
{
    if n == 0 {
        Seq::empty()
    } else {
        jostles(ds, i, (n - 1) as nat) + jostle(ds, i)
    }
}

impl Agitate {
    /// A command that jostles the droplet `in_id` once around, after which
    /// it goes on under the name `out_id`.
    pub fn new(in_id: DropletId, out_id: DropletId) -> (r: PuddleResult<Agitate>)
        ensures
            r == Ok::<Agitate, crate::process::PuddleError>(
                Agitate { input: in_id, output: out_id, n_agitation_loops: 1 },
            ),
    {
        Ok(Agitate { input: in_id, output: out_id, n_agitation_loops: 1 })
    }

    /// A view that owns a single droplet, which lies inside the region, can
    /// tick. Here the droplet is the one at place `i` of `ds`, moved by `dy`
    /// rows and `dx` columns.
    proof fn lemma_alone_can_tick(
        subview: &GridSubView,
        ds: Seq<Droplet>,
        i: int,
        dy: int,
        dx: int,
    )
        requires
            subview.wf(),
            subview.ids@.len() == 1,
            0 <= i < ds.len(),
            ds[i].id == subview.ids@[0],
            0 <= dy <= 1,
            0 <= dx <= 1,
            subview.droplets() == moved_by(ds, i, dy, dx),
            1 <= ds[i].dimensions.y,
            1 <= ds[i].dimensions.x,
            ds[i].location == subview.placement.offset,
            subview.placement.height == ds[i].dimensions.y + AGITATE_PADDING,
            subview.placement.width == ds[i].dimensions.x + AGITATE_PADDING,
        ensures
            subview.backing_gridview.wf(),
            index_of(subview.droplets(), ds[i].id) == i,
            has_droplet(subview.droplets(), ds[i].id),
    {
        let now = subview.droplets();
        assert(now[i].id == ds[i].id);
        lemma_index_of(now, ds[i].id, i);
        assert forall|k: int| 0 <= k < now.len() && subview.owns((#[trigger] now[k]).id) implies k
            == i by {
            assert(now[k].id == subview.ids@[0]);
            if k != i {
                assert(now[k].id != now[i].id);
            }
        }
        assert(subview.placement.wf());
        assert(subview.contained());
        subview.lemma_contained_can_tick();
    }
}

impl Command for Agitate {
    open spec fn input_ids(&self) -> Seq<DropletId> {
        seq![self.input]
    }

    open spec fn output_ids(&self) -> Seq<DropletId> {
        seq![self.output]
    }

    open spec fn bypassed(&self, ds: Seq<Droplet>) -> bool {
        false
    }

    /// A region one row higher and one column wider than the droplet.
    open spec fn region(&self, ds: Seq<Droplet>) -> Region {
        let d = ds[index_of(ds, self.input)];
        Region {
            height: d.dimensions.y + AGITATE_PADDING,
            width: d.dimensions.x + AGITATE_PADDING,
            port: None,
        }
    }

    /// The droplet in the top-left corner of the region.
    open spec fn input_locations(&self, ds: Seq<Droplet>) -> Seq<Location> {
        seq![Location { y: 0, x: 0 }]
    }

    open spec fn anchor(&self, ds: Seq<Droplet>) -> Option<Location> {
        None
    }

    open spec fn requested(&self, ds: Seq<Droplet>) -> Seq<Droplet> {
        ds
    }

    open spec fn pre_ran(&self, ds: Seq<Droplet>, offset: Location) -> Seq<Droplet> {
        ds
    }

    /// The droplet is back where it was, under its new name.
    open spec fn ran(&self, ds: Seq<Droplet>, offset: Location) -> Seq<Droplet> {
        renamed(ds, index_of(ds, self.input), self.output)
    }

    /// Four ticks for each round of jostling.
    open spec fn run_frames(&self, ds: Seq<Droplet>, offset: Location) -> Seq<Seq<Droplet>> {
        jostles(ds, index_of(ds, self.input), self.n_agitation_loops as nat)
    }

    open spec fn concluded(&self, grid: &Grid, ds: Seq<Droplet>, p: Placement) -> Self {
        *self
    }

    open spec fn can_request(&self, gridview: &GridView) -> bool {
        &&& gridview.wf()
        &&& has_droplet(gridview.droplets(), self.input)
    }

    open spec fn can_pre_run(&self, subview: &GridSubView) -> bool {
        self.can_run(subview)
    }

    open spec fn can_run(&self, subview: &GridSubView) -> bool {
        let ds = subview.droplets();
        let d = ds[index_of(ds, self.input)];
        &&& subview.wf()
        &&& subview.backing_gridview.wf()
        &&& subview.ids@ =~= seq![self.input]
        &&& calm(ds)
        &&& !has_droplet(ds, self.output)
        &&& 1 <= d.dimensions.y
        &&& 1 <= d.dimensions.x
        &&& d.location == subview.placement.offset
        &&& subview.placement.height == d.dimensions.y + AGITATE_PADDING
        &&& subview.placement.width == d.dimensions.x + AGITATE_PADDING
    }

    open spec fn can_finalize(&self) -> bool {
        true
    }

    fn input_droplets(&self) -> (ids: Vec<DropletId>) {
        vec![self.input]
    }

    fn output_droplets(&self) -> (ids: Vec<DropletId>) {
        vec![self.output]
    }

    fn bypass(&self, gridview: &GridView) -> (skip: bool) {
        false
    }

    /// Asks for a region one row higher and one column wider than the
    /// droplet, with the droplet in its top-left corner.
    fn request(&self, gridview: &mut GridView) -> (req: CommandRequest) {
        let droplet = gridview.snapshot().get(&self.input);
        proof {
            assert(droplet.within(gridview.grid.height() as int, gridview.grid.width() as int));
        }
        CommandRequest {
            shape: Grid::rectangle(
                droplet.dimensions.y as usize + AGITATE_PADDING,
                droplet.dimensions.x as usize + AGITATE_PADDING,
            ),
            input_locations: vec![Location { y: 0, x: 0 }],
            trusted: false,
            origin: Location { y: 0, x: 0 },
        }
    }

    fn pre_run(&self, subview: &mut GridSubView) {
    }

    /// Moves the droplet one step south, east, north and west, with a tick
    /// after each step, as many times around as the command says; then gives
    /// it its new name.
    fn run(&mut self, subview: &mut GridSubView)
        ensures
            *final(self) == *old(self),
    {
        let in_id = self.input;
        let out_id = self.output;
        let ghost ds = subview.droplets();
        let ghost i = index_of(ds, in_id);
        let ghost ticks = subview.backing_gridview.ticks();
        proof {
            assert(subview.ids@[0] == in_id);
            assert(has_droplet(ds, subview.ids@[0]));
            assert(ticks + jostles(ds, i, 0) =~= ticks);
        }
        let mut n: u32 = 0;
        while n < self.n_agitation_loops
            invariant
                *self == *old(self),
                n <= self.n_agitation_loops,
                in_id == self.input,
                self.can_run(subview),
                subview.droplets() == ds,
                subview.ids == old(subview).ids,
                subview.placement == old(subview).placement,
                subview.backing_gridview.grid == old(subview).backing_gridview.grid,
                0 <= i < ds.len(),
                ds[i].id == in_id,
                i == index_of(ds, in_id),
                subview.backing_gridview.ticks() == ticks + jostles(ds, i, n as nat),
            decreases self.n_agitation_loops - n,
        {
            let ghost before = subview.backing_gridview.ticks();
            subview.move_south(in_id);
            proof {
                Self::lemma_alone_can_tick(subview, ds, i, 1, 0);
            }
            subview.tick();
            subview.move_east(in_id);
            proof {
                assert(subview.droplets() =~= moved_by(ds, i, 1, 1));
                Self::lemma_alone_can_tick(subview, ds, i, 1, 1);
            }
            subview.tick();
            subview.move_north(in_id);
            proof {
                assert(subview.droplets() =~= moved_by(ds, i, 0, 1));
                Self::lemma_alone_can_tick(subview, ds, i, 0, 1);
            }
            subview.tick();
            subview.move_west(in_id);
            proof {
                assert(subview.droplets() =~= ds);
                assert(ds =~= moved_by(ds, i, 0, 0));
                Self::lemma_alone_can_tick(subview, ds, i, 0, 0);
            }
            subview.tick();
            proof {
                assert(subview.backing_gridview.ticks() =~= before + jostle(ds, i));
                assert(before + jostle(ds, i) =~= ticks + jostles(ds, i, (n + 1) as nat));
            }
            n = n + 1;
        }
        rename(subview, in_id, out_id);
        proof {
            assert(self.input_ids() + self.output_ids() =~= seq![in_id, out_id]);
        }
    }

    fn finalize(&mut self, snapshot: &Snapshot) -> (effects: Vec<Effect>)
        ensures
            effects@.len() == 0,
            *final(self) == *old(self),
    {
        Vec::new()
    }

    fn abort(&mut self, err: PlanError) -> (effects: Vec<Effect>)
        ensures
            effects@.len() == 0,
            *final(self) == *old(self),
    {
        Vec::new()
    }

    proof fn lemma_staged(&self, before: &GridView, subview: &GridSubView) {
        assert(seq![self.input][0] == self.input);
        assert(seq![self.output][0] == self.output);
        let d = before.droplets()[index_of(before.droplets(), self.input)];
        assert(d.within(before.grid.height() as int, before.grid.width() as int));
        lemma_staged_single(before, subview, self.input, Location { y: 0, x: 0 });
    }

    proof fn lemma_ticks_immaterial(&self, a: &GridSubView, b: &GridSubView) {
    }
}

//
//  Split
//

/// Splits a droplet into two halves that lie side by side.
#[derive(Debug)]
pub struct Split {
    pub input: DropletId,
    pub output0: DropletId,
    pub output1: DropletId,
}

/// The free columns that a droplet needs to be split: two on either side.
pub const SPLIT_PADDING: usize = 4;

impl Split {
    /// A command that splits the droplet `id` into `out_id1`, the left half,
    /// and `out_id2`, the right half.
    pub fn new(id: DropletId, out_id1: DropletId, out_id2: DropletId) -> (r: PuddleResult<Split>)
        ensures
            r == Ok::<Split, crate::process::PuddleError>(
                Split { input: id, output0: out_id1, output1: out_id2 },
            ),
    {
        Ok(Split { input: id, output0: out_id1, output1: out_id2 })
    }

    /// The footprint of either half of `d`: as high as `d` and half as wide,
    /// rounded up.
    pub open spec fn half_dimensions(d: Droplet) -> Location {
        Location { y: d.dimensions.y, x: ((d.dimensions.x + 1) / 2) as i32 }
    }

    /// The halves of a droplet are together at least as wide as the droplet,
    /// and wider by at most one column; the halves of a droplet of one column
    /// have one column each.
    pub proof fn lemma_halves_cover(d: Droplet)
        requires
            1 <= d.dimensions.x,
        ensures
            d.dimensions.x <= 2 * Self::half_dimensions(d).x <= d.dimensions.x + 1,
            d.dimensions.x == 1 ==> Self::half_dimensions(d).x == 1,
            Self::half_dimensions(d).y == d.dimensions.y,
    {
    }

    /// The half of `d` named `id`, with its top-left cell `dx` columns to the
    /// right of `offset`.
    pub open spec fn half(d: Droplet, id: DropletId, offset: Location, dx: int) -> Droplet {
        Droplet {
            id,
            location: Location { y: offset.y, x: (offset.x + dx) as i32 },
            dimensions: Self::half_dimensions(d),
            volume: d.volume / 2,
            destination: None,
            collision_group: id.id,
            pinned: false,
        }
    }

    /// The droplets right after the split: the input has left, and the
    /// halves lie one column inside either end of the region.
    pub open spec fn parted(&self, ds: Seq<Droplet>, offset: Location) -> Seq<Droplet> {
        let i = index_of(ds, self.input);
        let d = ds[i];
        ds.remove(i).push(Self::half(d, self.output0, offset, 1)).push(
            Self::half(
                d,
                self.output1,
                offset,
                d.dimensions.x + SPLIT_PADDING - Self::half_dimensions(d).x - 1,
            ),
        )
    }

    /// The droplets in the end: the halves lie at either end of the region.
    pub open spec fn separated(&self, ds: Seq<Droplet>, offset: Location) -> Seq<Droplet> {
        let i = index_of(ds, self.input);
        let d = ds[i];
        ds.remove(i).push(Self::half(d, self.output0, offset, 0)).push(
            Self::half(
                d,
                self.output1,
                offset,
                d.dimensions.x + SPLIT_PADDING - Self::half_dimensions(d).x,
            ),
        )
    }

    /// A split leaves calm droplets calm, where the names of the halves are
    /// new; and it touches no droplet but the one that it splits.
    proof fn lemma_separated(&self, ds: Seq<Droplet>, offset: Location)
        requires
            calm(ds),
            fresh(seq![self.output0, self.output1], ds),
            has_droplet(ds, self.input),
        ensures
            calm(self.separated(ds, offset)),
            untouched(ds, self.separated(ds, offset), self.input_ids() + self.output_ids()),
    {
        let outs = seq![self.output0, self.output1];
        let i = index_of(ds, self.input);
        let rest = ds.remove(i);
        let first = Self::half(ds[i], self.output0, offset, 0);
        let after = self.separated(ds, offset);
        assert(outs[0] == self.output0 && outs[1] == self.output1);
        // the halves are in groups of their own
        lemma_calm_after_remove(ds, i);
        lemma_remove_index(ds, i);
        assert forall|k: int| 0 <= k < rest.len() implies (#[trigger] rest[k]).collision_group
            != self.output0.id && rest[k].collision_group != self.output1.id by {
            let k0 = if k < i {
                k
            } else {
                k + 1
            };
            assert(rest[k] == ds[k0]);
            assert(outs[0].id != ds[k0].collision_group);
            assert(outs[1].id != ds[k0].collision_group);
        }
        lemma_calm_after_push(rest, first);
        assert(outs[0].id != outs[1].id);
        assert forall|k: int| 0 <= k < rest.push(first).len() implies (#[trigger] rest.push(
            first,
        )[k]).collision_group != self.output1.id by {
            if k < rest.len() {
                assert(rest.push(first)[k] == rest[k]);
            }
        }
        lemma_calm_after_push(rest.push(first), after[after.len() - 1]);
        // nothing else has been touched
        let ids = self.input_ids() + self.output_ids();
        assert(seq![self.input][0] == self.input);
        lemma_among(self.input_ids(), self.output_ids(), self.input);
        lemma_among(self.input_ids(), self.output_ids(), self.output0);
        lemma_among(self.input_ids(), self.output_ids(), self.output1);
        lemma_untouched_remove(ds, i, ids);
        lemma_untouched_push(rest, first, ids);
        lemma_untouched_push(rest.push(first), after[after.len() - 1], ids);
        lemma_untouched_twice(ds, rest, rest.push(first), ids, ids, ids);
        lemma_untouched_twice(ds, rest.push(first), after, ids, ids, ids);
    }

    /// A view that owns just the two halves, its last two droplets, can tick
    /// if both lie inside the region with a free column between them.
    proof fn lemma_halves_can_tick(subview: &GridSubView, out0: DropletId, out1: DropletId)
        requires
            subview.wf(),
            subview.ids@ =~= seq![out0, out1],
            subview.droplets().len() >= 2,
            ({
                let ds = subview.droplets();
                let a = ds[ds.len() - 2];
                let b = ds[ds.len() - 1];
                &&& a.id == out0
                &&& b.id == out1
                &&& subview.placement.holds(a.location, a.dimensions)
                &&& subview.placement.holds(b.location, b.dimensions)
                &&& a.location.x + a.dimensions.x < b.location.x
            }),
        ensures
            subview.backing_gridview.wf(),
            index_of(subview.droplets(), out0) == subview.droplets().len() - 2,
            index_of(subview.droplets(), out1) == subview.droplets().len() - 1,
    {
        let ds = subview.droplets();
        let n = ds.len() as int;
        lemma_index_of(ds, out0, n - 2);
        lemma_index_of(ds, out1, n - 1);
        assert forall|k: int| 0 <= k < n && subview.owns((#[trigger] ds[k]).id) implies k == n - 2
            || k == n - 1 by {
            let m = choose|m: int| 0 <= m < subview.ids@.len() && subview.ids@[m] == ds[k].id;
            if m == 0 {
                if k != n - 2 {
                    assert(ds[k].id != ds[n - 2].id);
                }
            } else {
                if k != n - 1 {
                    assert(ds[k].id != ds[n - 1].id);
                }
            }
        }
        assert(subview.contained());
        subview.lemma_contained_can_tick();
    }
}

impl Command for Split {
    open spec fn input_ids(&self) -> Seq<DropletId> {
        seq![self.input]
    }

    open spec fn output_ids(&self) -> Seq<DropletId> {
        seq![self.output0, self.output1]
    }

    /// The split has happened already if both outputs are on the board and
    /// the input is not.
    open spec fn bypassed(&self, ds: Seq<Droplet>) -> bool {
        &&& has_droplet(ds, self.output0)
        &&& has_droplet(ds, self.output1)
        &&& !has_droplet(ds, self.input)
    }

    /// A region as high as the droplet and four columns wider. The split
    /// runs along the columns only, so that no row is added.
    open spec fn region(&self, ds: Seq<Droplet>) -> Region {
        let d = ds[index_of(ds, self.input)];
        Region {
            height: d.dimensions.y as int,
            width: d.dimensions.x + SPLIT_PADDING,
            port: None,
        }
    }

    /// The droplet in the middle of the region.
    open spec fn input_locations(&self, ds: Seq<Droplet>) -> Seq<Location> {
        seq![Location { y: 0, x: 2 }]
    }

    open spec fn anchor(&self, ds: Seq<Droplet>) -> Option<Location> {
        None
    }

    open spec fn requested(&self, ds: Seq<Droplet>) -> Seq<Droplet> {
        ds
    }

    open spec fn pre_ran(&self, ds: Seq<Droplet>, offset: Location) -> Seq<Droplet> {
        ds
    }

    open spec fn ran(&self, ds: Seq<Droplet>, offset: Location) -> Seq<Droplet> {
        self.separated(ds, offset)
    }

    /// Two ticks: one that shows the halves right after the split, and one
    /// that shows them at the ends of the region.
    open spec fn run_frames(&self, ds: Seq<Droplet>, offset: Location) -> Seq<Seq<Droplet>> {
        seq![self.parted(ds, offset), self.separated(ds, offset)]
    }

    open spec fn concluded(&self, grid: &Grid, ds: Seq<Droplet>, p: Placement) -> Self {
        *self
    }

    open spec fn can_request(&self, gridview: &GridView) -> bool {
        &&& gridview.wf()
        &&& has_droplet(gridview.droplets(), self.input)
    }

    open spec fn can_pre_run(&self, subview: &GridSubView) -> bool {
        self.can_run(subview)
    }

    open spec fn can_run(&self, subview: &GridSubView) -> bool {
        let ds = subview.droplets();
        let d = ds[index_of(ds, self.input)];
        &&& self.output0 != self.output1
        &&& subview.wf()
        &&& subview.backing_gridview.wf()
        &&& subview.ids@ =~= seq![self.input]
        &&& calm(ds)
        &&& fresh(seq![self.output0, self.output1], ds)
        &&& 1 <= d.dimensions.y
        &&& 1 <= d.dimensions.x
        &&& d.location.y == subview.placement.offset.y
        &&& d.location.x == subview.placement.offset.x + 2
        &&& subview.placement.height == d.dimensions.y
        &&& subview.placement.width == d.dimensions.x + SPLIT_PADDING
    }

    open spec fn can_finalize(&self) -> bool {
        true
    }

    fn input_droplets(&self) -> (ids: Vec<DropletId>) {
        vec![self.input]
    }

    fn output_droplets(&self) -> (ids: Vec<DropletId>) {
        vec![self.output0, self.output1]
    }

    fn bypass(&self, gridview: &GridView) -> (skip: bool) {
        let droplets = gridview.snapshot();
        droplets.contains_key(&self.output0) && droplets.contains_key(&self.output1)
            && !droplets.contains_key(&self.input)
    }

    /// Asks for a region as high as the droplet and four columns wider, with
    /// the droplet in the middle.
    fn request(&self, gridview: &mut GridView) -> (req: CommandRequest) {
        let d0 = gridview.snapshot().get(&self.input);
        proof {
            assert(d0.within(gridview.grid.height() as int, gridview.grid.width() as int));
        }
        let x_dim = (d0.dimensions.x as usize) + SPLIT_PADDING;
        let y_dim = d0.dimensions.y as usize;
        let grid = Grid::rectangle(y_dim, x_dim);
        let input_locations = vec![Location { y: 0, x: 2 }];
        CommandRequest {
            shape: grid,
            input_locations: input_locations,
            trusted: false,
            origin: Location { y: 0, x: 0 },
        }
    }

    fn pre_run(&self, subview: &mut GridSubView) {
    }

    /// Takes the droplet off the board and puts two droplets in its place,
    /// each with half the volume and half the width, rounded up; they lie one
    /// column inside either end of the region. After a tick each moves one
    /// column outwards, and a second tick passes.
    fn run(&mut self, subview: &mut GridSubView)
        ensures
            *final(self) == *old(self),
            final(subview).wf(),
            final(subview).ids@ == seq![old(self).output0, old(self).output1],
    {
        let ghost ds = subview.droplets();
        let ghost i = index_of(ds, self.input);
        let ghost offset = subview.placement.offset;
        let ghost ticks = subview.backing_gridview.ticks();
        proof {
            assert(subview.ids@[0] == self.input);
            assert(has_droplet(ds, subview.ids@[0]));
            assert(subview.placement.wf());
            assert(seq![self.output0, self.output1][0] == self.output0);
            assert(seq![self.output0, self.output1][1] == self.output1);
            assert(!has_droplet(ds, self.output0));
            assert(!has_droplet(ds, self.output1));
            lemma_has_after_remove(ds, i, self.output0);
            lemma_has_after_remove(ds, i, self.output1);
        }
        let x_dim = {
            let d0 = subview.get(&self.input);
            (d0.dimensions.x as usize) + SPLIT_PADDING
        };
        let inp = self.input;
        let out0 = self.output0;
        let out1 = self.output1;

        let d = subview.remove(&inp);
        let vol = d.volume / 2;

        // either half gets the width rounded up
        let dim = Location { y: d.dimensions.y, x: (d.dimensions.x + 1) / 2 };

        let loc0 = Location { y: 0, x: 1 };
        let loc1 = Location { y: 0, x: x_dim as i32 - (dim.x + 1) };

        let ghost rest = subview.droplets();
        subview.insert(Droplet::new(out0, vol, loc0, dim));
        proof {
            lemma_has_after_push(rest, subview.droplets()[rest.len() as int], out1);
        }
        subview.insert(Droplet::new(out1, vol, loc1, dim));
        proof {
            assert(subview.droplets() == self.parted(ds, offset));
            Self::lemma_halves_can_tick(subview, out0, out1);
        }
        subview.tick();
        subview.move_west(out0);
        proof {
            Self::lemma_halves_can_tick(subview, out0, out1);
        }
        subview.move_east(out1);
        proof {
            assert(subview.droplets() =~= self.separated(ds, offset));
            Self::lemma_halves_can_tick(subview, out0, out1);
            self.lemma_separated(ds, offset);
        }
        subview.tick();
        proof {
            assert(subview.backing_gridview.ticks() =~= ticks + self.run_frames(ds, offset));
        }
    }

    fn finalize(&mut self, snapshot: &Snapshot) -> (effects: Vec<Effect>)
        ensures
            effects@.len() == 0,
            *final(self) == *old(self),
    {
        Vec::new()
    }

    fn abort(&mut self, err: PlanError) -> (effects: Vec<Effect>)
        ensures
            effects@.len() == 0,
            *final(self) == *old(self),
    {
        Vec::new()
    }

    proof fn lemma_staged(&self, before: &GridView, subview: &GridSubView) {
        assert(seq![self.input][0] == self.input);
        let d = before.droplets()[index_of(before.droplets(), self.input)];
        assert(d.within(before.grid.height() as int, before.grid.width() as int));
        lemma_staged_single(before, subview, self.input, Location { y: 0, x: 2 });
        assert(self.output_ids()[0] == self.output0 && self.output_ids()[1] == self.output1);
        assert(self.output0 != self.output1);
    }

    proof fn lemma_ticks_immaterial(&self, a: &GridSubView, b: &GridSubView) {
    }
}

//
//  Heat
//

/// Heats a droplet on a heater.
#[derive(Debug)]
pub struct Heat {
    pub input: DropletId,
    pub output: DropletId,
    /// In thousandths of a degree Celsius.
    pub temperature: i32,
    /// In milliseconds.
    pub duration: u64,
    /// The heater under the droplet, from `run` to `finalize`.
    pub heater: Option<Peripheral>,
}

impl Heat {
    /// A command that brings the droplet `id` onto a heater and holds it at
    /// `temperature` thousandths of a degree Celsius for `duration`
    /// milliseconds; the droplet goes on under the name `out_id`.
    pub fn new(id: DropletId, out_id: DropletId, temperature: i32, duration: u64) -> (r:
        PuddleResult<Heat>)
        ensures
            r == Ok::<Heat, crate::process::PuddleError>(
                Heat { input: id, output: out_id, temperature, duration, heater: None },
            ),
    {
        Ok(Heat { input: id, output: out_id, temperature, duration, heater: None })
    }

    /// The position in the region of the heater, and of the droplet's
    /// top-left cell: the last row of the only column.
    pub open spec fn heater_position(d: Droplet) -> Location {
        Location { y: (d.dimensions.y - 1) as i32, x: 0 }
    }
}

impl Command for Heat {
    open spec fn input_ids(&self) -> Seq<DropletId> {
        seq![self.input]
    }

    open spec fn output_ids(&self) -> Seq<DropletId> {
        seq![self.output]
    }

    open spec fn bypassed(&self, ds: Seq<Droplet>) -> bool {
        false
    }

    /// A region of the droplet's dimensions, whose last row must lie on a
    /// heater. The channels of the heater in the region count for nothing: it
    /// only stands for a heater of the board.
    open spec fn region(&self, ds: Seq<Droplet>) -> Region {
        let d = ds[index_of(ds, self.input)];
        Region {
            height: d.dimensions.y as int,
            width: 1,
            port: Some(
                (Self::heater_position(d), Peripheral::Heater { pwm_channel: 0, spi_channel: 0 }),
            ),
        }
    }

    /// The droplet's top-left cell on the heater.
    open spec fn input_locations(&self, ds: Seq<Droplet>) -> Seq<Location> {
        seq![Self::heater_position(ds[index_of(ds, self.input)])]
    }

    open spec fn anchor(&self, ds: Seq<Droplet>) -> Option<Location> {
        None
    }

    open spec fn requested(&self, ds: Seq<Droplet>) -> Seq<Droplet> {
        ds
    }

    open spec fn pre_ran(&self, ds: Seq<Droplet>, offset: Location) -> Seq<Droplet> {
        ds
    }

    /// The droplet goes on under its new name.
    open spec fn ran(&self, ds: Seq<Droplet>, offset: Location) -> Seq<Droplet> {
        renamed(ds, index_of(ds, self.input), self.output)
    }

    /// One tick, which shows the droplet under its new name.
    open spec fn run_frames(&self, ds: Seq<Droplet>, offset: Location) -> Seq<Seq<Droplet>> {
        seq![self.ran(ds, offset)]
    }

    /// The command has noted the heater under the droplet.
    open spec fn concluded(&self, grid: &Grid, ds: Seq<Droplet>, p: Placement) -> Self {
        Heat {
            heater: grid.cell(
                p.to_board(Self::heater_position(ds[index_of(ds, self.input)])),
            ).peripheral,
            ..*self
        }
    }

    /// Only a droplet of one column can be heated.
    open spec fn can_request(&self, gridview: &GridView) -> bool {
        &&& gridview.wf()
        &&& has_droplet(gridview.droplets(), self.input)
        &&& gridview.droplets()[index_of(gridview.droplets(), self.input)].dimensions.x == 1
    }

    open spec fn can_pre_run(&self, subview: &GridSubView) -> bool {
        self.can_run(subview)
    }

    open spec fn can_run(&self, subview: &GridSubView) -> bool {
        let ds = subview.droplets();
        let d = ds[index_of(ds, self.input)];
        &&& can_rename(self.input, self.output, subview)
        &&& 1 <= d.dimensions.y
        &&& subview.placement.covers(Self::heater_position(d))
        &&& subview.peripheral_at(Self::heater_position(d)) matches Some(
            Peripheral::Heater { .. },
        )
    }

    open spec fn can_finalize(&self) -> bool {
        self.heater is Some
    }

    fn input_droplets(&self) -> (ids: Vec<DropletId>) {
        vec![self.input]
    }

    fn output_droplets(&self) -> (ids: Vec<DropletId>) {
        vec![self.output]
    }

    fn bypass(&self, gridview: &GridView) -> (skip: bool) {
        false
    }

    /// Asks for a region of the droplet's dimensions, whose last row must lie
    /// on a heater, with the droplet's top-left cell on the heater.
    fn request(&self, gridview: &mut GridView) -> (req: CommandRequest) {
        let d = gridview.snapshot().get(&self.input);
        proof {
            assert(d.within(gridview.grid.height() as int, gridview.grid.width() as int));
        }
        let x_dim = d.dimensions.x as usize;
        let y_dim = d.dimensions.y as usize;
        let mut grid = Grid::rectangle(y_dim, x_dim);

        let loc = Location { y: y_dim as i32 - 1, x: 0 };
        grid.set_peripheral(&loc, Peripheral::Heater { pwm_channel: 0, spi_channel: 0 });

        let input_locations = vec![loc];

        CommandRequest {
            shape: grid,
            input_locations: input_locations,
            trusted: false,
            origin: Location { y: 0, x: 0 },
        }
    }

    fn pre_run(&self, subview: &mut GridSubView) {
    }

    /// Notes the heater under the droplet, gives the droplet its new name,
    /// and ticks.
    fn run(&mut self, subview: &mut GridSubView)
        ensures
            final(self).heater == old(subview).peripheral_at(
                Heat::heater_position(
                    old(subview).droplets()[index_of(
                        old(subview).droplets(),
                        old(self).input,
                    )],
                ),
            ),
            final(self).input == old(self).input,
            final(self).output == old(self).output,
            final(self).temperature == old(self).temperature,
            final(self).duration == old(self).duration,
    {
        let ghost ticks = subview.backing_gridview.ticks();
        let d = subview.get(&self.input);
        let loc = Location { y: d.dimensions.y - 1, x: 0 };
        let heater = match subview.get_electrode(&loc) {
            Some(electrode) => match &electrode.peripheral {
                Some(p) => Some(p.duplicate()),
                None => None,
            },
            None => None,
        };
        self.heater = heater;
        let old_id = self.input;
        let new_id = self.output;
        rename(subview, old_id, new_id);
        subview.tick();
        proof {
            assert(subview.backing_gridview.ticks() =~= ticks + seq![subview.droplets()]);
            assert(self.input_ids() + self.output_ids() =~= seq![old_id, new_id]);
        }
    }

    /// Lists the heating, and forgets the heater.
    fn finalize(&mut self, snapshot: &Snapshot) -> (effects: Vec<Effect>)
        ensures
            effects@ == seq![
                Effect::Heat {
                    heater: old(self).heater->0,
                    temperature: old(self).temperature,
                    duration: old(self).duration,
                },
            ],
            final(self).heater is None,
            final(self).input == old(self).input,
            final(self).output == old(self).output,
            final(self).temperature == old(self).temperature,
            final(self).duration == old(self).duration,
    {
        let mut taken: Option<Peripheral> = None;
        std::mem::swap(&mut self.heater, &mut taken);
        let heater = taken.unwrap();
        let mut effects: Vec<Effect> = Vec::new();
        effects.push(
            Effect::Heat { heater, temperature: self.temperature, duration: self.duration },
        );
        effects
    }

    fn abort(&mut self, err: PlanError) -> (effects: Vec<Effect>)
        ensures
            effects@.len() == 0,
            *final(self) == *old(self),
    {
        Vec::new()
    }

    proof fn lemma_staged(&self, before: &GridView, subview: &GridSubView) {
        assert(seq![self.input][0] == self.input);
        assert(seq![self.output][0] == self.output);
        let d = before.droplets()[index_of(before.droplets(), self.input)];
        assert(d.within(before.grid.height() as int, before.grid.width() as int));
        assert(subview.placement.wf());
        lemma_staged_single(before, subview, self.input, Self::heater_position(d));
    }

    proof fn lemma_ticks_immaterial(&self, a: &GridSubView, b: &GridSubView) {
    }
}

//
//  Input
//

/// Takes a new droplet in through an input port.
#[derive(Debug)]
pub struct Input {
    pub substance: String,
    pub volume: u64,
    pub dimensions: Location,
    pub output: DropletId,
    /// The port beside the droplet, from `run` to `finalize`.
    pub input: Option<Peripheral>,
}

/// The channel of the upper cell next to the input port.
pub const PORT_NEAR_UPPER: usize = 118;

/// The channel of the upper cell one further from the input port.
pub const PORT_FAR_UPPER: usize = 119;

/// The channel of the lower cell next to the input port.
pub const PORT_NEAR_LOWER: usize = 112;

/// The channel of the lower cell one further from the input port.
pub const PORT_FAR_LOWER: usize = 113;

/// How long each step of pulling a droplet off the port takes, in
/// milliseconds.
pub const PORT_STEP_MILLIS: u64 = 1500;

impl Input {
    /// A command that takes `volume` units of `substance` in as the droplet
    /// `out_id` of the given dimensions.
    pub fn new(substance: String, volume: u64, dimensions: Location, out_id: DropletId) -> (r:
        PuddleResult<Input>)
        ensures
            r == Ok::<Input, crate::process::PuddleError>(
                Input { substance, volume, dimensions, output: out_id, input: None },
            ),
    {
        Ok(Input { substance, volume, dimensions, output: out_id, input: None })
    }

    /// The position in the region of the input port: right of the droplet,
    /// in its middle row.
    pub open spec fn port_position(&self) -> Location {
        Location { y: (self.dimensions.y / 2) as i32, x: self.dimensions.x }
    }

    /// Whether `fx` lists how `volume` units are dispensed through `port` and
    /// pulled off it: the four cells in front of the port are switched on and
    /// the volume is dispensed; then, with a wait after each step, the far
    /// upper cell alone is on, the far lower cell alone, all four again, and
    /// the near upper cell alone.
    pub open spec fn dispensing(fx: Seq<Effect>, port: Peripheral, volume: u64) -> bool {
        &&& fx.len() == 10
        &&& fx[0].switches(seq![PORT_NEAR_UPPER, PORT_FAR_UPPER, PORT_NEAR_LOWER, PORT_FAR_LOWER])
        &&& fx[1] == (Effect::Dispense { input: port, volume })
        &&& fx[2].switches(seq![PORT_FAR_UPPER])
        &&& fx[3].waits(PORT_STEP_MILLIS)
        &&& fx[4].switches(seq![PORT_FAR_LOWER])
        &&& fx[5].waits(PORT_STEP_MILLIS)
        &&& fx[6].switches(seq![PORT_NEAR_UPPER, PORT_FAR_UPPER, PORT_NEAR_LOWER, PORT_FAR_LOWER])
        &&& fx[7].waits(PORT_STEP_MILLIS)
        &&& fx[8].switches(seq![PORT_NEAR_UPPER])
        &&& fx[9].waits(PORT_STEP_MILLIS)
    }

    /// The droplet that the command takes in, as it stands once the region
    /// lies at `offset`.
    pub open spec fn taken_in(&self, offset: Location) -> Droplet {
        Droplet {
            id: self.output,
            location: offset,
            dimensions: self.dimensions,
            volume: self.volume,
            destination: None,
            collision_group: self.output.id,
            pinned: false,
        }
    }
}

impl Command for Input {
    open spec fn input_ids(&self) -> Seq<DropletId> {
        Seq::empty()
    }

    open spec fn output_ids(&self) -> Seq<DropletId> {
        seq![self.output]
    }

    open spec fn bypassed(&self, ds: Seq<Droplet>) -> bool {
        false
    }

    /// A region as high as the droplet and one column wider, whose last
    /// column must lie, in the middle row, on an input port for the substance.
    /// The port in the region only stands for a port on the board, which is
    /// taken to lie on the right-hand side.
    open spec fn region(&self, ds: Seq<Droplet>) -> Region {
        Region {
            height: self.dimensions.y as int,
            width: self.dimensions.x + 1,
            port: Some(
                (self.port_position(), Peripheral::Input { pwm_channel: 0, name: self.substance }),
            ),
        }
    }

    open spec fn input_locations(&self, ds: Seq<Droplet>) -> Seq<Location> {
        Seq::empty()
    }

    open spec fn anchor(&self, ds: Seq<Droplet>) -> Option<Location> {
        None
    }

    open spec fn requested(&self, ds: Seq<Droplet>) -> Seq<Droplet> {
        ds
    }

    open spec fn pre_ran(&self, ds: Seq<Droplet>, offset: Location) -> Seq<Droplet> {
        ds
    }

    /// The new droplet has its top-left cell at the top-left cell of the
    /// region.
    open spec fn ran(&self, ds: Seq<Droplet>, offset: Location) -> Seq<Droplet> {
        ds.push(self.taken_in(offset))
    }

    /// One tick, which shows the new droplet.
    open spec fn run_frames(&self, ds: Seq<Droplet>, offset: Location) -> Seq<Seq<Droplet>> {
        seq![self.ran(ds, offset)]
    }

    /// The command has noted the port beside the region.
    open spec fn concluded(&self, grid: &Grid, ds: Seq<Droplet>, p: Placement) -> Self {
        Input { input: grid.cell(p.to_board(self.port_position())).peripheral, ..*self }
    }

    open spec fn can_request(&self, gridview: &GridView) -> bool {
        &&& gridview.wf()
        &&& 1 <= self.dimensions.y <= MAX_DIM
        &&& 1 <= self.dimensions.x < MAX_DIM
    }

    open spec fn can_pre_run(&self, subview: &GridSubView) -> bool {
        self.can_run(subview)
    }

    open spec fn can_run(&self, subview: &GridSubView) -> bool {
        &&& subview.wf()
        &&& subview.backing_gridview.wf()
        &&& subview.ids@.len() == 0
        &&& 1 <= self.dimensions.y
        &&& 1 <= self.dimensions.x
        &&& subview.placement.height == self.dimensions.y
        &&& subview.placement.width == self.dimensions.x + 1
        &&& calm(subview.droplets())
        &&& fresh(seq![self.output], subview.droplets())
        &&& subview.peripheral_at(self.port_position()) matches Some(Peripheral::Input { .. })
    }

    open spec fn can_finalize(&self) -> bool {
        self.input is Some
    }

    fn input_droplets(&self) -> (ids: Vec<DropletId>) {
        Vec::new()
    }

    fn output_droplets(&self) -> (ids: Vec<DropletId>) {
        vec![self.output]
    }

    fn bypass(&self, gridview: &GridView) -> (skip: bool) {
        false
    }

    /// Asks for a region as high as the droplet and one column wider, whose
    /// last column must lie, in the middle row, on an input port for the
    /// substance.
    fn request(&self, gridview: &mut GridView) -> (req: CommandRequest) {
        let mut grid = Grid::rectangle(
            self.dimensions.y as usize,
            self.dimensions.x as usize + 1,
        );

        let loc = Location { y: self.dimensions.y / 2, x: self.dimensions.x - 1 + 1 };
        grid.set_peripheral(
            &loc,
            Peripheral::Input { pwm_channel: 0, name: self.substance.clone() },
        );

        CommandRequest {
            shape: grid,
            input_locations: Vec::new(),
            trusted: false,
            origin: Location { y: 0, x: 0 },
        }
    }

    fn pre_run(&self, subview: &mut GridSubView) {
    }

    /// Notes the port beside the region, inserts the droplet at the top-left
    /// cell of the region, and ticks.
    fn run(&mut self, subview: &mut GridSubView)
        ensures
            final(self).input == old(subview).peripheral_at(old(self).port_position()),
            final(self).substance == old(self).substance,
            final(self).volume == old(self).volume,
            final(self).dimensions == old(self).dimensions,
            final(self).output == old(self).output,
    {
        let ghost ds0 = subview.droplets();
        let ghost ticks = subview.backing_gridview.ticks();
        proof {
            assert(seq![self.output][0] == self.output);
            assert(!has_droplet(ds0, self.output));
            assert(subview.placement.wf());
        }
        let input_loc = Location { y: self.dimensions.y / 2, x: self.dimensions.x - 1 + 1 };
        let input = match subview.get_electrode(&input_loc) {
            Some(electrode) => match &electrode.peripheral {
                Some(p) => Some(p.duplicate()),
                None => None,
            },
            None => None,
        };
        self.input = input;
        let new_id = self.output;

        let d_loc = Location { y: 0, x: 0 };
        let d = Droplet::new(new_id, self.volume, d_loc, self.dimensions);
        subview.insert(d);
        proof {
            let ds = subview.droplets();
            let last = ds.len() - 1;
            assert(subview.ids@ =~= seq![self.output]);
            assert forall|i: int| 0 <= i < ds.len() && subview.owns((#[trigger] ds[i]).id) implies i
                == last by {
                assert(ds[i].id == subview.ids@[0]);
                if i != last {
                    assert(ds[i].id != ds[last].id);
                }
            }
            assert(subview.contained());
            subview.lemma_contained_can_tick();
            assert forall|i: int| 0 <= i < ds0.len() implies (#[trigger] ds0[i]).collision_group
                != ds[last].collision_group by {
                assert(seq![self.output][0].id != ds0[i].collision_group);
            }
            lemma_calm_after_push(ds0, ds[last]);
            lemma_among(self.input_ids(), self.output_ids(), self.output);
            lemma_untouched_push(ds0, ds[last], self.input_ids() + self.output_ids());
        }
        subview.tick();
        proof {
            assert(subview.backing_gridview.ticks() =~= ticks + seq![subview.droplets()]);
        }
    }

    /// Lists how the droplet is dispensed and pulled off the port: the four
    /// cells in front of the port are switched on and the volume is
    /// dispensed; then the cells are switched in four steps, with a wait
    /// after each. The port is forgotten.
    fn finalize(&mut self, snapshot: &Snapshot) -> (effects: Vec<Effect>)
        ensures
            Self::dispensing(effects@, old(self).input->0, old(self).volume),
            final(self).input is None,
            final(self).substance == old(self).substance,
            final(self).volume == old(self).volume,
            final(self).dimensions == old(self).dimensions,
            final(self).output == old(self).output,
    {
        let mut taken: Option<Peripheral> = None;
        std::mem::swap(&mut self.input, &mut taken);
        let input = taken.unwrap();
        let all = vec![PORT_NEAR_UPPER, PORT_FAR_UPPER, PORT_NEAR_LOWER, PORT_FAR_LOWER];
        let far_upper = vec![PORT_FAR_UPPER];
        let far_lower = vec![PORT_FAR_LOWER];
        let near_upper = vec![PORT_NEAR_UPPER];
        proof {
            assert(all@ =~= seq![
                PORT_NEAR_UPPER,
                PORT_FAR_UPPER,
                PORT_NEAR_LOWER,
                PORT_FAR_LOWER,
            ]);
            assert(far_upper@ =~= seq![PORT_FAR_UPPER]);
            assert(far_lower@ =~= seq![PORT_FAR_LOWER]);
            assert(near_upper@ =~= seq![PORT_NEAR_UPPER]);
        }
        let mut effects: Vec<Effect> = Vec::new();

        effects.push(Effect::Pins { levels: pin_levels(&all) });
        effects.push(Effect::Dispense { input, volume: self.volume });

        effects.push(Effect::Pins { levels: pin_levels(&far_upper) });
        effects.push(Effect::Wait { millis: PORT_STEP_MILLIS });

        effects.push(Effect::Pins { levels: pin_levels(&far_lower) });
        effects.push(Effect::Wait { millis: PORT_STEP_MILLIS });

        effects.push(Effect::Pins { levels: pin_levels(&all) });
        effects.push(Effect::Wait { millis: PORT_STEP_MILLIS });

        effects.push(Effect::Pins { levels: pin_levels(&near_upper) });
        effects.push(Effect::Wait { millis: PORT_STEP_MILLIS });
        effects
    }

    fn abort(&mut self, err: PlanError) -> (effects: Vec<Effect>)
        ensures
            effects@.len() == 0,
            *final(self) == *old(self),
    {
        Vec::new()
    }

    proof fn lemma_staged(&self, before: &GridView, subview: &GridSubView) {
        lemma_delivered_none(before.droplets(), Seq::empty(), subview.placement);
        assert(subview.placement.wf());
    }

    proof fn lemma_ticks_immaterial(&self, a: &GridSubView, b: &GridSubView) {
    }
}

//
//  Output
//

/// Drains a droplet through an output port.
#[derive(Debug)]
pub struct Output {
    pub name: String,
    pub input: DropletId,
    /// The volume of the droplet, from `run` to `finalize`.
    pub volume: Option<u64>,
    /// The port under the droplet, from `run` to `finalize`.
    pub output: Option<Peripheral>,
}

impl Output {
    /// A command that drains the droplet `id` through the output port `name`.
    pub fn new(name: String, id: DropletId) -> (r: PuddleResult<Output>)
        ensures
            r == Ok::<Output, crate::process::PuddleError>(
                Output { name, input: id, volume: None, output: None },
            ),
    {
        Ok(Output { name, input: id, volume: None, output: None })
    }

    /// The position in the region of the output port, and of the droplet's
    /// top-left cell: the middle row of the first column.
    pub open spec fn port_position(d: Droplet) -> Location {
        Location { y: (d.dimensions.y / 2) as i32, x: 0 }
    }
}

impl Command for Output {
    open spec fn input_ids(&self) -> Seq<DropletId> {
        seq![self.input]
    }

    open spec fn output_ids(&self) -> Seq<DropletId> {
        Seq::empty()
    }

    open spec fn bypassed(&self, ds: Seq<Droplet>) -> bool {
        false
    }

    /// A region of the droplet's dimensions, whose first column must lie, in
    /// the middle row, on the output port. The port in the region only stands
    /// for a port on the board, which is taken to lie on the left-hand side.
    open spec fn region(&self, ds: Seq<Droplet>) -> Region {
        let d = ds[index_of(ds, self.input)];
        Region {
            height: d.dimensions.y as int,
            width: d.dimensions.x as int,
            port: Some(
                (Self::port_position(d), Peripheral::Output { pwm_channel: 0, name: self.name }),
            ),
        }
    }

    /// The droplet's top-left cell on the port.
    open spec fn input_locations(&self, ds: Seq<Droplet>) -> Seq<Location> {
        seq![Self::port_position(ds[index_of(ds, self.input)])]
    }

    open spec fn anchor(&self, ds: Seq<Droplet>) -> Option<Location> {
        None
    }

    open spec fn requested(&self, ds: Seq<Droplet>) -> Seq<Droplet> {
        ds
    }

    open spec fn pre_ran(&self, ds: Seq<Droplet>, offset: Location) -> Seq<Droplet> {
        ds
    }

    /// The droplet has left the board.
    open spec fn ran(&self, ds: Seq<Droplet>, offset: Location) -> Seq<Droplet> {
        ds.remove(index_of(ds, self.input))
    }

    /// One tick, which shows the board without the droplet.
    open spec fn run_frames(&self, ds: Seq<Droplet>, offset: Location) -> Seq<Seq<Droplet>> {
        seq![self.ran(ds, offset)]
    }

    /// The command has noted the port under the droplet and the droplet's
    /// volume.
    open spec fn concluded(&self, grid: &Grid, ds: Seq<Droplet>, p: Placement) -> Self {
        Output {
            output: grid.cell(
                p.to_board(Self::port_position(ds[index_of(ds, self.input)])),
            ).peripheral,
            volume: Some(ds[index_of(ds, self.input)].volume),
            ..*self
        }
    }

    open spec fn can_request(&self, gridview: &GridView) -> bool {
        &&& gridview.wf()
        &&& has_droplet(gridview.droplets(), self.input)
    }

    open spec fn can_pre_run(&self, subview: &GridSubView) -> bool {
        self.can_run(subview)
    }

    open spec fn can_run(&self, subview: &GridSubView) -> bool {
        let ds = subview.droplets();
        let d = ds[index_of(ds, self.input)];
        &&& subview.wf()
        &&& subview.backing_gridview.wf()
        &&& calm(ds)
        &&& subview.owns(self.input)
        &&& subview.placement.contains_cell(d.location)
        &&& 1 <= d.dimensions.y
        &&& subview.placement.covers(Self::port_position(d))
        &&& subview.peripheral_at(Self::port_position(d)) matches Some(
            Peripheral::Output { .. },
        )
    }

    open spec fn can_finalize(&self) -> bool {
        self.volume is Some && self.output is Some
    }

    fn input_droplets(&self) -> (ids: Vec<DropletId>) {
        vec![self.input]
    }

    fn output_droplets(&self) -> (ids: Vec<DropletId>) {
        Vec::new()
    }

    fn bypass(&self, gridview: &GridView) -> (skip: bool) {
        false
    }

    /// Asks for a region of the droplet's dimensions, whose first column must
    /// lie, in the middle row, on the output port, with the droplet's
    /// top-left cell on the port.
    fn request(&self, gridview: &mut GridView) -> (req: CommandRequest) {
        let d = gridview.snapshot().get(&self.input);
        proof {
            assert(d.within(gridview.grid.height() as int, gridview.grid.width() as int));
        }
        let mut grid = Grid::rectangle(d.dimensions.y as usize, d.dimensions.x as usize);

        let loc = Location { y: d.dimensions.y / 2, x: 0 };
        grid.set_peripheral(&loc, Peripheral::Output { pwm_channel: 0, name: self.name.clone() });

        CommandRequest {
            shape: grid,
            input_locations: vec![loc],
            trusted: false,
            origin: Location { y: 0, x: 0 },
        }
    }

    fn pre_run(&self, subview: &mut GridSubView) {
    }

    /// Notes the port under the droplet and the droplet's volume, takes the
    /// droplet off the board, and ticks.
    fn run(&mut self, subview: &mut GridSubView)
        ensures
            final(self).output == old(subview).peripheral_at(
                Output::port_position(
                    old(subview).droplets()[index_of(
                        old(subview).droplets(),
                        old(self).input,
                    )],
                ),
            ),
            final(self).volume == Some(
                old(subview).droplets()[index_of(
                    old(subview).droplets(),
                    old(self).input,
                )].volume,
            ),
            final(self).name == old(self).name,
            final(self).input == old(self).input,
    {
        let id = self.input;
        let ghost ds = subview.droplets();
        let ghost i = index_of(ds, id);
        let ghost ticks = subview.backing_gridview.ticks();
        proof {
            let k = choose|k: int| 0 <= k < subview.ids@.len() && subview.ids@[k] == id;
            assert(has_droplet(ds, subview.ids@[k]));
            lemma_remove_keeps_wf(
                ds,
                i,
                subview.backing_gridview.grid.height() as int,
                subview.backing_gridview.grid.width() as int,
            );
            lemma_calm_after_remove(ds, i);
            assert(seq![self.input][0] == self.input);
            lemma_among(self.input_ids(), self.output_ids(), self.input);
            lemma_untouched_remove(ds, i, self.input_ids() + self.output_ids());
        }
        let loc = Location { y: subview.get(&id).dimensions.y / 2, x: 0 };
        let volume = subview.get(&id).volume;
        let output = match subview.get_electrode(&loc) {
            Some(electrode) => match &electrode.peripheral {
                Some(p) => Some(p.duplicate()),
                None => None,
            },
            None => None,
        };
        self.output = output;
        self.volume = Some(volume);
        subview.remove(&id);
        subview.tick();
        proof {
            assert(subview.backing_gridview.ticks() =~= ticks + seq![subview.droplets()]);
        }
    }

    /// Lists the draining, and forgets the port and the volume.
    fn finalize(&mut self, snapshot: &Snapshot) -> (effects: Vec<Effect>)
        ensures
            effects@ == seq![
                Effect::Drain { output: old(self).output->0, volume: old(self).volume->0 },
            ],
            final(self).output is None,
            final(self).volume is None,
            final(self).name == old(self).name,
            final(self).input == old(self).input,
    {
        let mut taken: Option<Peripheral> = None;
        std::mem::swap(&mut self.output, &mut taken);
        let output = taken.unwrap();
        let volume = self.volume.unwrap();
        self.volume = None;
        let mut effects: Vec<Effect> = Vec::new();
        effects.push(Effect::Drain { output, volume });
        effects
    }

    fn abort(&mut self, err: PlanError) -> (effects: Vec<Effect>)
        ensures
            effects@.len() == 0,
            *final(self) == *old(self),
    {
        Vec::new()
    }

    proof fn lemma_staged(&self, before: &GridView, subview: &GridSubView) {
        assert(seq![self.input][0] == self.input);
        let d = before.droplets()[index_of(before.droplets(), self.input)];
        assert(d.within(before.grid.height() as int, before.grid.width() as int));
        assert(subview.placement.wf());
        lemma_staged_single(before, subview, self.input, Self::port_position(d));
    }

    proof fn lemma_ticks_immaterial(&self, a: &GridSubView, b: &GridSubView) {
    }
}

} // verus!
