//! The processes that share the board, and the manager that serves them.

use vstd::prelude::*;

use crate::command::{
    Agitate, Combine, Command, Create, Effect, Flush, Heat, Input, Move, Output,
    Split,
};
use crate::grid::droplet::{Droplet, DropletId, DropletInfo, ProcessId};
use crate::grid::grid::{Grid, Peripheral, MAX_DIM};
use crate::grid::gridview::{
    all_apart, below, bounded, fresh, has_droplet, index_of, infos, lemma_has_after_remove,
    lemma_index_of, lemma_remove_index, lemma_same_names, lemma_unique_after_remove,
    lemma_untouched_twice, untouched, GridView, MAX_BOARD_DIM,
};
use crate::grid::location::Location;
use crate::plan::place::{lemma_chosen_for_nothing, lemma_chosen_has_room};
use crate::plan::{
    delivered, lemma_delivered_at, lemma_delivered_names, lemma_delivered_one, lemma_outcome,
    lemma_outcome_without_inputs, outcome, placed, plannable, staged, PlanError,
};

verus! {

/// Why an operation of a client failed.
#[derive(Clone, Copy, Debug, PartialEq, Eq, Structural)]
pub enum PuddleError {
    /// The command could not be planned.
    PlanError(PlanError),
    /// The process owns no droplet of this name.
    NonExistentDropletId(DropletId),
    /// No open process has this name.
    NonExistentProcess(ProcessId),
    /// The session has handed out every sequence number that it has.
    DropletIdsExhausted,
}

/// What an operation of the manager answers.
pub type PuddleResult<T> = Result<T, PuddleError>;

/// A client of the manager.
#[derive(Debug)]
pub struct Process {
    pub id: ProcessId,
    pub name: String,
    pub closed: bool,
}

/// Serves the processes that share one board: each operation of a process is
/// made into a command, planned and run before the next one is looked at, so
/// that no two commands ever change the board at once.
#[derive(Debug)]
pub struct Manager {
    pub gridview: GridView,
    pub processes: Vec<Process>,
    /// The sequence number of the next droplet.
    pub next_droplet_id: usize,
    /// What is left to do outside the board, oldest first.
    pub effects: Vec<Effect>,
}

impl Manager {
    /// The droplets on the board.
    pub open spec fn droplets(&self) -> Seq<Droplet> {
        self.gridview.droplets()
    }

    /// The states of the board that were shown and not yet taken.
    pub open spec fn ticks(&self) -> Seq<Seq<Droplet>> {
        self.gridview.ticks()
    }

    /// The board is settled, and the sequence number of every droplet and the
    /// number of every collision group lie below the next sequence number.
    pub open spec fn wf(&self) -> bool {
        &&& self.gridview.settled()
        &&& bounded(self.droplets(), self.next_droplet_id as int)
    }

    /// Whether `pid` names a process that has not been closed.
    pub open spec fn is_open(&self, pid: ProcessId) -> bool {
        pid < self.processes@.len() && !self.processes@[pid as int].closed
    }

    /// Whether the droplet named `id` is on the board and belongs to the
    /// process `pid`.
    pub open spec fn owns(&self, pid: ProcessId, id: DropletId) -> bool {
        id.process_id == pid && has_droplet(self.droplets(), id)
    }

    /// The name of the `k`-th droplet that the process `pid` creates next.
    pub open spec fn new_id(&self, pid: ProcessId, k: int) -> DropletId {
        DropletId { id: (self.next_droplet_id + k) as usize, process_id: pid }
    }

    /// Whether the droplets, the ticks that were shown and the next sequence
    /// number are as they were at `before`.
    pub open spec fn unchanged(&self, before: &Manager) -> bool {
        &&& self.droplets() == before.droplets()
        &&& self.ticks() == before.ticks()
        &&& self.next_droplet_id == before.next_droplet_id
    }

    /// Whether this manager has the board after an operation of the process
    /// `pid` that began at `before`: the grid and the processes are the same,
    /// and every droplet of another process is on the board exactly if it
    /// was, with nothing of it changed.
    pub open spec fn follows(&self, before: &Manager, pid: ProcessId) -> bool {
        &&& self.wf()
        &&& self.gridview.grid == before.gridview.grid
        &&& self.processes@ == before.processes@
        &&& forall|d: Droplet|
            d.id.process_id != pid ==> (#[trigger] before.droplets().contains(d)
                <==> #[trigger] self.droplets().contains(d))
    }

    /// A manager of the board `grid`, without droplets and without processes.
    pub fn new(grid: Grid) -> (m: Manager)
        requires
            grid.wf(),
            grid.height() <= MAX_BOARD_DIM,
            grid.width() <= MAX_BOARD_DIM,
        ensures
            m.wf(),
            m.gridview.grid == grid,
            m.droplets().len() == 0,
            m.ticks().len() == 0,
            m.processes@.len() == 0,
            m.effects@.len() == 0,
            m.next_droplet_id == 0,
    {
        Manager {
            gridview: GridView::new(grid),
            processes: Vec::new(),
            next_droplet_id: 0,
            effects: Vec::new(),
        }
    }

    /// Opens a process and hands out its name.
    pub fn new_process(&mut self, name: String) -> (r: PuddleResult<ProcessId>)
        requires
            old(self).wf(),
        ensures
            final(self).wf(),
            r == Ok::<ProcessId, PuddleError>(old(self).processes@.len() as usize),
            final(self).processes@ == old(self).processes@.push(
                Process { id: old(self).processes@.len() as usize, name, closed: false },
            ),
            final(self).is_open(r->Ok_0),
            final(self).gridview == old(self).gridview,
            final(self).next_droplet_id == old(self).next_droplet_id,
            final(self).effects == old(self).effects,
    {
        let pid = self.processes.len();
        self.processes.push(Process { id: pid, name, closed: false });
        Ok(pid)
    }

    /// Closes a process: it can submit nothing from now on. Its droplets stay
    /// on the board.
    pub fn close_process(&mut self, pid: ProcessId) -> (r: PuddleResult<()>)
        requires
            old(self).wf(),
        ensures
            final(self).wf(),
            final(self).gridview == old(self).gridview,
            final(self).next_droplet_id == old(self).next_droplet_id,
            final(self).effects == old(self).effects,
            final(self).processes@ == (if old(self).is_open(pid) {
                old(self).processes@.update(
                    pid as int,
                    Process { closed: true, ..old(self).processes@[pid as int] },
                )
            } else {
                old(self).processes@
            }),
            !final(self).is_open(pid),
            forall|q: ProcessId| q != pid ==> final(self).is_open(q) == old(self).is_open(q),
            r == (if old(self).is_open(pid) {
                Ok::<(), PuddleError>(())
            } else {
                Err::<(), PuddleError>(PuddleError::NonExistentProcess(pid))
            }),
    {
        if pid >= self.processes.len() || self.processes[pid].closed {
            return Err(PuddleError::NonExistentProcess(pid));
        }
        let ghost before = self.processes@;
        self.processes[pid].closed = true;
        proof {
            assert(self.processes@.len() == before.len());
            assert forall|q: ProcessId| q != pid implies self.is_open(q) == old(self).is_open(
                q,
            ) by {
                if q < before.len() {
                    assert(self.processes@[q as int] == before[q as int]);
                }
            }
        }
        Ok(())
    }

    /// Whether `pid` names a process that has not been closed.
    pub fn has_open(&self, pid: ProcessId) -> (r: bool)
        ensures
            r == self.is_open(pid),
    {
        pid < self.processes.len() && !self.processes[pid].closed
    }

    /// Whether the droplet named `id` is on the board and belongs to the
    /// process `pid`.
    pub fn has_droplet_of(&self, pid: ProcessId, id: &DropletId) -> (r: bool)
        ensures
            r == self.owns(pid, *id),
    {
        id.process_id == pid && self.gridview.snapshot.contains_key(id)
    }

    /// The reports on all droplets, whatever process they belong to.
    pub fn visualizer_droplet_info(&self) -> (r: PuddleResult<Vec<DropletInfo>>)
        ensures
            r is Ok,
            r->Ok_0@ == infos(self.droplets(), None),
    {
        Ok(self.gridview.snapshot.droplet_info(None))
    }

    /// Hands out what is left to do outside the board, oldest first, and
    /// forgets it.
    pub fn take_effects(&mut self) -> (r: Vec<Effect>)
        ensures
            r@ == old(self).effects@,
            final(self).effects@.len() == 0,
            final(self).gridview == old(self).gridview,
            final(self).processes == old(self).processes,
            final(self).next_droplet_id == old(self).next_droplet_id,
    {
        let mut taken: Vec<Effect> = Vec::new();
        std::mem::swap(&mut self.effects, &mut taken);
        taken
    }

    /// Hands out the frames of the ticks that have passed, oldest first, and
    /// forgets them.
    pub fn take_frames(&mut self) -> (r: Vec<Vec<Droplet>>)
        ensures
            r@.map_values(|f: Vec<Droplet>| f@) == old(self).ticks(),
            final(self).ticks().len() == 0,
            final(self).droplets() == old(self).droplets(),
            final(self).gridview.grid == old(self).gridview.grid,
            final(self).processes == old(self).processes,
            final(self).next_droplet_id == old(self).next_droplet_id,
            final(self).effects == old(self).effects,
    {
        let mut taken: Vec<Vec<Droplet>> = Vec::new();
        std::mem::swap(&mut self.gridview.frames, &mut taken);
        taken
    }

    /// Puts `fx` at the end of what is left to do outside the board.
    fn note(&mut self, fx: Vec<Effect>)
        ensures
            final(self).effects@ == old(self).effects@ + fx@,
            final(self).gridview == old(self).gridview,
            final(self).processes == old(self).processes,
            final(self).next_droplet_id == old(self).next_droplet_id,
    {
        let mut fx = fx;
        self.effects.append(&mut fx);
    }

    /// Whether the effects are those at `before` and one more.
    pub open spec fn one_more_effect(&self, before: &Manager) -> bool {
        self.effects@.len() == before.effects@.len() + 1 && self.effects@.drop_last()
            == before.effects@
    }

    /// What a flush of the process `pid` makes of the manager `before` and
    /// what it answers: the droplets and the next sequence number stay as
    /// they are. For a process that is not open nothing else happens. On a
    /// board without cells the flush fails for want of a place, and the
    /// failure is reported. Else two ticks pass, one that ends the planning
    /// and one for the flush itself, and the droplets of the process are
    /// reported, in the order in which they stand on the board.
    pub open spec fn flushed(
        &self,
        before: &Manager,
        pid: ProcessId,
        r: PuddleResult<Vec<DropletInfo>>,
    ) -> bool {
        &&& self.droplets() == before.droplets()
        &&& self.next_droplet_id == before.next_droplet_id
        &&& if !before.is_open(pid) {
            &&& r == Err::<Vec<DropletInfo>, PuddleError>(PuddleError::NonExistentProcess(pid))
            &&& self.ticks() == before.ticks()
            &&& self.effects@ == before.effects@
        } else if before.gridview.grid.height() == 0 || before.gridview.grid.width() == 0 {
            &&& r == Err::<Vec<DropletInfo>, PuddleError>(
                PuddleError::PlanError(PlanError::PlaceError),
            )
            &&& self.ticks() == before.ticks()
            &&& self.one_more_effect(before)
            &&& self.effects@.last().reports_failure(pid, PlanError::PlaceError)
        } else {
            &&& r is Ok
            &&& r->Ok_0@ == infos(before.droplets(), Some(pid))
            &&& self.ticks() == before.ticks() + seq![before.droplets(), before.droplets()]
            &&& self.one_more_effect(before)
            &&& self.effects@.last().reports(pid, infos(before.droplets(), Some(pid)))
        }
    }

    /// Waits for everything that the process has submitted and reports its
    /// droplets.
    pub fn flush(&mut self, pid: ProcessId) -> (r: PuddleResult<Vec<DropletInfo>>)
        requires
            old(self).wf(),
        ensures
            final(self).follows(old(self), pid),
            final(self).flushed(old(self), pid, r),
    {
        if !self.has_open(pid) {
            return Err(PuddleError::NonExistentProcess(pid));
        }
        let mut cmd = Flush::new(pid);
        proof {
            lemma_chosen_for_nothing(&self.gridview.grid, self.droplets(), cmd.input_ids());
            lemma_outcome_without_inputs(&cmd, &self.gridview.grid, self.droplets());
        }
        match self.gridview.plan(&mut cmd) {
            Err(e) => {
                let fx = cmd.abort(e);
                self.note(fx);
                proof {
                    assert(self.effects@.drop_last() =~= old(self).effects@);
                }
                Err(PuddleError::PlanError(e))
            },
            Ok(_) => {
                let fx = cmd.finalize(&self.gridview.snapshot);
                let info = self.gridview.snapshot.droplet_info(Some(pid));
                self.note(fx);
                proof {
                    assert(self.effects@.drop_last() =~= old(self).effects@);
                    assert(seq![old(self).droplets()] + seq![old(self).droplets()] =~= seq![
                        old(self).droplets(),
                        old(self).droplets(),
                    ]);
                }
                Ok(info)
            },
        }
    }

    /// A flush changes no droplet, so that a second flush right after the
    /// first reports what the first reported.
    pub proof fn lemma_flush_twice(
        before: &Manager,
        between: &Manager,
        after: &Manager,
        pid: ProcessId,
        first: PuddleResult<Vec<DropletInfo>>,
        second: PuddleResult<Vec<DropletInfo>>,
    )
        requires
            between.flushed(before, pid, first),
            between.follows(before, pid),
            after.flushed(between, pid, second),
            after.follows(between, pid),
        ensures
            after.droplets() == before.droplets(),
            first is Ok <==> second is Ok,
            first is Ok ==> first->Ok_0@ == second->Ok_0@,
            first is Err ==> second == first,
    {
    }

    /// Between two operations any two droplets on the board keep the minimum
    /// separation: no droplet overlaps or touches another.
    pub proof fn lemma_never_overlap(&self)
        requires
            self.wf(),
        ensures
            all_apart(self.droplets()),
    {
        self.gridview.lemma_settled_apart();
    }

    /// What is reported to a process is its own: each report is the report
    /// on a droplet on the board that belongs to the process, and each such
    /// droplet is reported.
    pub proof fn lemma_reports_are_own(ds: Seq<Droplet>, pid: ProcessId, info: DropletInfo)
        ensures
            infos(ds, Some(pid)).contains(info) <==> exists|i: int|
                0 <= i < ds.len() && (#[trigger] ds[i]).id.process_id == pid && ds[i].info_spec()
                    == info,
        decreases ds.len(),
    {
        if ds.len() > 0 {
            let rest = ds.drop_last();
            let last = ds.last();
            Self::lemma_reports_are_own(rest, pid, info);
            let all = infos(ds, Some(pid));
            let before = infos(rest, Some(pid));
            if all.contains(info) {
                let k = choose|k: int| 0 <= k < all.len() && all[k] == info;
                if last.id.process_id == pid && k == before.len() {
                    assert(ds[ds.len() - 1].info_spec() == info);
                } else {
                    assert(before[k] == info);
                    let i = choose|i: int|
                        0 <= i < rest.len() && (#[trigger] rest[i]).id.process_id == pid
                            && rest[i].info_spec() == info;
                    assert(ds[i] == rest[i]);
                }
            }
            if exists|i: int|
                0 <= i < ds.len() && (#[trigger] ds[i]).id.process_id == pid && ds[i].info_spec()
                    == info {
                let i = choose|i: int|
                    0 <= i < ds.len() && (#[trigger] ds[i]).id.process_id == pid
                        && ds[i].info_spec() == info;
                if i == ds.len() - 1 {
                    assert(all[before.len() as int] == info);
                } else {
                    assert(rest[i] == ds[i]);
                    let k = choose|k: int| 0 <= k < before.len() && before[k] == info;
                    assert(all[k] == info);
                }
            }
        }
    }

    /// Reports the droplets of the process, as `flush` does.
    pub fn droplet_info(&mut self, pid: ProcessId) -> (r: PuddleResult<Vec<DropletInfo>>)
        requires
            old(self).wf(),
        ensures
            final(self).follows(old(self), pid),
            final(self).flushed(old(self), pid, r),
    {
        self.flush(pid)
    }

    /// Creates a droplet of `vol` units for the process `pid`. With a
    /// location the droplet goes there or nowhere; without one it goes to the
    /// first place, the board read row by row, where it keeps the minimum
    /// separation from every other droplet. Without dimensions it has one
    /// cell. A footprint without cells, or one larger than any grid, has no
    /// place.
    pub fn create(
        &mut self,
        pid: ProcessId,
        loc: Option<Location>,
        vol: u64,
        dim: Option<Location>,
    ) -> (r: PuddleResult<DropletId>)
        requires
            old(self).wf(),
        ensures
            final(self).follows(old(self), pid),
            final(self).effects@ == old(self).effects@,
            ({
                let cmd = Create::spec_new(loc, vol, dim, old(self).new_id(pid, 0));
                if !old(self).is_open(pid) {
                    r == Err::<DropletId, PuddleError>(PuddleError::NonExistentProcess(pid))
                        && final(self).unchanged(old(self))
                } else if old(self).next_droplet_id == usize::MAX {
                    r == Err::<DropletId, PuddleError>(PuddleError::DropletIdsExhausted)
                        && final(self).unchanged(old(self))
                } else if !(1 <= cmd.dimensions.y <= MAX_DIM && 1 <= cmd.dimensions.x <= MAX_DIM) {
                    r == Err::<DropletId, PuddleError>(
                        PuddleError::PlanError(PlanError::PlaceError),
                    ) && final(self).unchanged(old(self))
                } else {
                    match placed(&cmd, &old(self).gridview.grid, old(self).droplets()) {
                        None => r == Err::<DropletId, PuddleError>(
                            PuddleError::PlanError(PlanError::PlaceError),
                        ) && final(self).unchanged(old(self)),
                        Some(p) => {
                            &&& r == Ok::<DropletId, PuddleError>(cmd.output)
                            &&& final(self).droplets() == old(self).droplets().push(
                                cmd.created(p.offset),
                            )
                            &&& final(self).ticks() == old(self).ticks() + seq![
                                old(self).droplets(),
                                final(self).droplets(),
                            ]
                            &&& final(self).next_droplet_id == old(self).next_droplet_id + 1
                        },
                    }
                }
            }),
            // a droplet that is given a location stands exactly there
            r is Ok && loc is Some ==> final(self).droplets().last().location == loc->0,
    {
        if !self.has_open(pid) {
            return Err(PuddleError::NonExistentProcess(pid));
        }
        if self.next_droplet_id == usize::MAX {
            return Err(PuddleError::DropletIdsExhausted);
        }
        let out = DropletId { id: self.next_droplet_id, process_id: pid };
        let mut cmd = match Create::new(loc, vol, dim, out) {
            Ok(cmd) => cmd,
            Err(e) => {
                return Err(e);
            },
        };
        if cmd.dimensions.y < 1 || cmd.dimensions.x < 1 || cmd.dimensions.y > MAX_DIM as i32
            || cmd.dimensions.x > MAX_DIM as i32 {
            return Err(PuddleError::PlanError(PlanError::PlaceError));
        }
        proof {
            self.lemma_new_ids_are_fresh(seq![out]);
            lemma_outcome_without_inputs(&cmd, &self.gridview.grid, self.droplets());
            if placed(&cmd, &self.gridview.grid, self.droplets()) is Some {
                lemma_chosen_has_room(
                    &self.gridview.grid,
                    cmd.region(self.droplets()),
                    cmd.anchor(self.droplets()),
                    self.droplets(),
                    cmd.input_ids(),
                );
            }
        }
        match self.gridview.plan(&mut cmd) {
            Err(e) => Err(PuddleError::PlanError(e)),
            Ok(_) => {
                self.next_droplet_id = self.next_droplet_id + 1;
                proof {
                    assert(seq![out][0] == out);
                    assert(bounded(old(self).droplets(), self.next_droplet_id as int));
                    assert(below(seq![out], self.next_droplet_id as int));
                    self.lemma_follows(old(self), pid, cmd.input_ids() + cmd.output_ids());
                    let ds0 = old(self).droplets();
                    let p = placed(&cmd, &self.gridview.grid, ds0)->0;
                    assert(seq![ds0] + seq![ds0.push(cmd.created(p.offset))] =~= seq![
                        ds0,
                        ds0.push(cmd.created(p.offset)),
                    ]);
                }
                Ok(out)
            },
        }
    }

    /// Names whose sequence numbers begin at the next sequence number and
    /// differ from each other are new to the board.
    proof fn lemma_new_ids_are_fresh(&self, ids: Seq<DropletId>)
        requires
            self.wf(),
            forall|k: int| 0 <= k < ids.len() ==> (#[trigger] ids[k]).id >= self.next_droplet_id,
            forall|k: int, m: int|
                0 <= k < ids.len() && 0 <= m < ids.len() && k != m ==> (#[trigger] ids[k]).id != (
                #[trigger] ids[m]).id,
        ensures
            fresh(ids, self.droplets()),
    {
        let ds = self.droplets();
        assert forall|k: int| 0 <= k < ids.len() implies !has_droplet(ds, #[trigger] ids[k]) by {
            if has_droplet(ds, ids[k]) {
                let i = index_of(ds, ids[k]);
                assert(ds[i].id.id < self.next_droplet_id);
            }
        }
        assert forall|k: int, i: int| 0 <= k < ids.len() && 0 <= i < ds.len() implies (
        #[trigger] ids[k]).id != (#[trigger] ds[i]).collision_group by {
            assert(ds[i].collision_group < self.next_droplet_id);
        }
    }

    /// An operation that touches only droplets named in `ids`, all of which
    /// belong to the process `pid`, leaves the droplets of every other process
    /// as they were.
    proof fn lemma_follows(&self, before: &Manager, pid: ProcessId, ids: Seq<DropletId>)
        requires
            self.wf(),
            self.gridview.grid == before.gridview.grid,
            self.processes@ == before.processes@,
            untouched(before.droplets(), self.droplets(), ids),
            forall|k: int| 0 <= k < ids.len() ==> (#[trigger] ids[k]).process_id == pid,
        ensures
            self.follows(before, pid),
    {
        assert forall|d: Droplet| d.id.process_id != pid implies (
        #[trigger] before.droplets().contains(d) <==> #[trigger] self.droplets().contains(d)) by {
            if ids.contains(d.id) {
                let k = choose|k: int| 0 <= k < ids.len() && ids[k] == d.id;
                assert(ids[k].process_id == pid);
            }
        }
    }

    /// The droplet named `id`, as it stands on the board.
    pub open spec fn droplet(&self, id: DropletId) -> Droplet {
        self.droplets()[index_of(self.droplets(), id)]
    }

    /// Whether the manager stands where `before` stood, but for the board,
    /// which has become what planning `cmd` at `before` makes of it, and the
    /// next sequence number, which has advanced by `k`; or, where that plan
    /// fails with an error, stands exactly where `before` stood.
    pub open spec fn planned<C: Command>(&self, before: &Manager, cmd: &C, k: int) -> bool {
        match outcome(cmd, &before.gridview.grid, before.droplets()) {
            Ok((ds, frames)) => self.droplets() == ds && self.ticks() == before.ticks() + frames
                && self.next_droplet_id == before.next_droplet_id + k,
            Err(_) => self.unchanged(before),
        }
    }

    /// What planning `cmd` at `before` answers where it fails.
    pub open spec fn plan_error<C: Command>(before: &Manager, cmd: &C) -> Option<PuddleError> {
        match outcome(cmd, &before.gridview.grid, before.droplets()) {
            Ok(_) => None,
            Err(e) => Some(PuddleError::PlanError(e)),
        }
    }

    /// Brings the droplet `d` of the process `pid` to `loc`, where it goes
    /// on under a new name. The droplet goes exactly there or not at all: the
    /// plan fails for want of a place if it would not lie on the board there
    /// or not keep the minimum separation from another droplet, and for want
    /// of a route if the router cannot bring it there.
    pub fn move_droplet(&mut self, pid: ProcessId, d: DropletId, loc: Location) -> (r: PuddleResult<
        DropletId,
    >)
        requires
            old(self).wf(),
        ensures
            final(self).follows(old(self), pid),
            final(self).effects@ == old(self).effects@,
            ({
                let cmd = Move { input: d, output: old(self).new_id(pid, 0), destination: loc };
                if !old(self).is_open(pid) {
                    r == Err::<DropletId, PuddleError>(PuddleError::NonExistentProcess(pid))
                        && final(self).unchanged(old(self))
                } else if !old(self).owns(pid, d) {
                    r == Err::<DropletId, PuddleError>(PuddleError::NonExistentDropletId(d))
                        && final(self).unchanged(old(self))
                } else if old(self).next_droplet_id == usize::MAX {
                    r == Err::<DropletId, PuddleError>(PuddleError::DropletIdsExhausted)
                        && final(self).unchanged(old(self))
                } else {
                    &&& final(self).planned(old(self), &cmd, 1)
                    &&& r == match Self::plan_error(old(self), &cmd) {
                        Some(e) => Err::<DropletId, PuddleError>(e),
                        None => Ok::<DropletId, PuddleError>(cmd.output),
                    }
                }
            }),
            // the droplet stands exactly at `loc`, and nothing else of it has
            // changed but its name
            r is Ok ==> final(self).droplets().last() == (Droplet {
                id: r->Ok_0,
                location: loc,
                ..old(self).droplet(d)
            }),
    {
        if !self.has_open(pid) {
            return Err(PuddleError::NonExistentProcess(pid));
        }
        if !self.has_droplet_of(pid, &d) {
            return Err(PuddleError::NonExistentDropletId(d));
        }
        if self.next_droplet_id == usize::MAX {
            return Err(PuddleError::DropletIdsExhausted);
        }
        let out = DropletId { id: self.next_droplet_id, process_id: pid };
        let mut cmd = match Move::new(d, loc, out) {
            Ok(cmd) => cmd,
            Err(e) => {
                return Err(e);
            },
        };
        proof {
            self.lemma_plannable_single(&cmd, d, seq![out]);
            lemma_outcome(&cmd, &self.gridview.grid, self.droplets());
            let ds0 = self.droplets();
            if placed(&cmd, &self.gridview.grid, ds0) is Some {
                let p = placed(&cmd, &self.gridview.grid, ds0)->0;
                lemma_chosen_has_room(
                    &self.gridview.grid,
                    cmd.region(ds0),
                    cmd.anchor(ds0),
                    ds0,
                    cmd.input_ids(),
                );
                lemma_delivered_one(ds0, d, Location { y: 0, x: 0 }, p);
                assert(cmd.input_locations(ds0) =~= seq![Location { y: 0, x: 0 }]);
            }
        }
        match self.gridview.plan(&mut cmd) {
            Err(e) => Err(PuddleError::PlanError(e)),
            Ok(_) => {
                self.next_droplet_id = self.next_droplet_id + 1;
                proof {
                    assert(seq![out][0] == out);
                    assert(seq![d][0] == d);
                    assert(bounded(old(self).droplets(), self.next_droplet_id as int));
                    assert(below(seq![out], self.next_droplet_id as int));
                    self.lemma_follows(old(self), pid, cmd.input_ids() + cmd.output_ids());
                    let ds0 = old(self).droplets();
                    let p = placed(&cmd, &self.gridview.grid, ds0)->0;
                    let st = staged(&cmd, ds0, p);
                    let i = index_of(ds0, d);
                    lemma_delivered_names(ds0, seq![d], seq![Location { y: 0, x: 0 }], p, d);
                    assert(st == delivered(ds0, seq![d], seq![Location { y: 0, x: 0 }], p));
                    assert(index_of(st, d) == i);
                    assert(st[i] == (Droplet { location: loc, ..ds0[i] }));
                }
                Ok(out)
            },
        }
    }

    /// A command with the single input `d`, a droplet on the board, and with
    /// outputs whose sequence numbers begin at the next sequence number, can
    /// be planned as soon as it can make its request.
    proof fn lemma_plannable_single<C: Command>(&self, cmd: &C, d: DropletId, outs: Seq<DropletId>)
        requires
            self.wf(),
            has_droplet(self.droplets(), d),
            cmd.input_ids() =~= seq![d],
            cmd.output_ids() =~= outs,
            cmd.can_request(&self.gridview),
            forall|k: int| 0 <= k < outs.len() ==> (#[trigger] outs[k]).id >= self.next_droplet_id,
            forall|k: int, m: int|
                0 <= k < outs.len() && 0 <= m < outs.len() && k != m ==> (#[trigger] outs[k]).id
                    != (#[trigger] outs[m]).id,
        ensures
            fresh(outs, self.droplets()),
            cmd.input_ids().no_duplicates(),
            !cmd.bypassed(self.droplets()) ==> plannable(cmd, &self.gridview),
    {
        self.lemma_new_ids_are_fresh(outs);
        assert(seq![d][0] == d);
    }

    /// Brings the droplet `d` of the process `pid` onto a heater, where it is
    /// held at `temperature` thousandths of a degree Celsius for `duration`
    /// milliseconds and goes on under a new name. The heater is the first
    /// one, the board read row by row, at which the droplet keeps the minimum
    /// separation from every other droplet. A droplet of more than one column
    /// has no place on a heater.
    pub fn heat(&mut self, pid: ProcessId, d: DropletId, temperature: i32, duration: u64) -> (r:
        PuddleResult<DropletId>)
        requires
            old(self).wf(),
        ensures
            final(self).follows(old(self), pid),
            ({
                let cmd = Heat {
                    input: d,
                    output: old(self).new_id(pid, 0),
                    temperature,
                    duration,
                    heater: None,
                };
                if !old(self).is_open(pid) {
                    r == Err::<DropletId, PuddleError>(PuddleError::NonExistentProcess(pid))
                        && final(self).unchanged(old(self))
                } else if !old(self).owns(pid, d) {
                    r == Err::<DropletId, PuddleError>(PuddleError::NonExistentDropletId(d))
                        && final(self).unchanged(old(self))
                } else if old(self).next_droplet_id == usize::MAX {
                    r == Err::<DropletId, PuddleError>(PuddleError::DropletIdsExhausted)
                        && final(self).unchanged(old(self))
                } else if old(self).droplet(d).dimensions.x != 1 {
                    r == Err::<DropletId, PuddleError>(
                        PuddleError::PlanError(PlanError::PlaceError),
                    ) && final(self).unchanged(old(self))
                } else {
                    &&& final(self).planned(old(self), &cmd, 1)
                    &&& r == match Self::plan_error(old(self), &cmd) {
                        Some(e) => Err::<DropletId, PuddleError>(e),
                        None => Ok::<DropletId, PuddleError>(cmd.output),
                    }
                }
            }),
            r is Err ==> final(self).effects@ == old(self).effects@,
            // the droplet stands on a heater, with its volume and whatever
            // else it had but its name and its location; and the heating at
            // that heater is left to do
            r is Ok ==> {
                let after = final(self).droplets().last();
                let heater = final(self).gridview.grid.cell(after.location).peripheral;
                &&& after == (Droplet {
                    id: r->Ok_0,
                    location: after.location,
                    ..old(self).droplet(d)
                })
                &&& heater matches Some(Peripheral::Heater { .. })
                &&& final(self).one_more_effect(old(self))
                &&& final(self).effects@.last() == (Effect::Heat {
                    heater: heater->0,
                    temperature,
                    duration,
                })
            },
    {
        if !self.has_open(pid) {
            return Err(PuddleError::NonExistentProcess(pid));
        }
        if !self.has_droplet_of(pid, &d) {
            return Err(PuddleError::NonExistentDropletId(d));
        }
        if self.next_droplet_id == usize::MAX {
            return Err(PuddleError::DropletIdsExhausted);
        }
        if self.gridview.snapshot.get(&d).dimensions.x != 1 {
            return Err(PuddleError::PlanError(PlanError::PlaceError));
        }
        let out = DropletId { id: self.next_droplet_id, process_id: pid };
        let mut cmd = match Heat::new(d, out, temperature, duration) {
            Ok(cmd) => cmd,
            Err(e) => {
                return Err(e);
            },
        };
        let ghost cmd0 = cmd;
        let ghost ds0 = self.droplets();
        let ghost i = index_of(ds0, d);
        let ghost spot = Heat::heater_position(ds0[i]);
        proof {
            self.lemma_plannable_single(&cmd, d, seq![out]);
            lemma_outcome(&cmd, &self.gridview.grid, self.droplets());
            assert(ds0[i].within(
                self.gridview.grid.height() as int,
                self.gridview.grid.width() as int,
            ));
            if placed(&cmd, &self.gridview.grid, ds0) is Some {
                let p = placed(&cmd, &self.gridview.grid, ds0)->0;
                lemma_chosen_has_room(
                    &self.gridview.grid,
                    cmd.region(ds0),
                    cmd.anchor(ds0),
                    ds0,
                    cmd.input_ids(),
                );
                lemma_delivered_one(ds0, d, spot, p);
                lemma_delivered_names(ds0, seq![d], seq![spot], p, d);
                assert(cmd.input_locations(ds0) =~= seq![spot]);
            }
        }
        match self.gridview.plan(&mut cmd) {
            Err(e) => Err(PuddleError::PlanError(e)),
            Ok(_) => {
                let fx = cmd.finalize(&self.gridview.snapshot);
                self.note(fx);
                self.next_droplet_id = self.next_droplet_id + 1;
                proof {
                    assert(seq![out][0] == out);
                    assert(seq![d][0] == d);
                    assert(bounded(old(self).droplets(), self.next_droplet_id as int));
                    assert(below(seq![out], self.next_droplet_id as int));
                    self.lemma_follows(old(self), pid, cmd.input_ids() + cmd.output_ids());
                    let p = placed(&cmd0, &self.gridview.grid, ds0)->0;
                    let st = staged(&cmd0, ds0, p);
                    assert(st == delivered(ds0, seq![d], seq![spot], p));
                    assert(index_of(st, d) == i);
                    assert(st[i] == (Droplet { location: p.to_board(spot), ..ds0[i] }));
                    assert(self.effects@.drop_last() =~= old(self).effects@);
                }
                Ok(out)
            },
        }
    }

    /// Drains the droplet `d` of the process `pid` through the output port
    /// `name`: the droplet is brought onto the port and leaves the board. The
    /// port is the first one of that name, the board read row by row, at which
    /// the droplet keeps the minimum separation from every other droplet.
    pub fn output(&mut self, pid: ProcessId, name: String, d: DropletId) -> (r: PuddleResult<()>)
        requires
            old(self).wf(),
        ensures
            final(self).follows(old(self), pid),
            ({
                let cmd = Output { name, input: d, volume: None, output: None };
                if !old(self).is_open(pid) {
                    r == Err::<(), PuddleError>(PuddleError::NonExistentProcess(pid))
                        && final(self).unchanged(old(self))
                } else if !old(self).owns(pid, d) {
                    r == Err::<(), PuddleError>(PuddleError::NonExistentDropletId(d))
                        && final(self).unchanged(old(self))
                } else {
                    &&& final(self).planned(old(self), &cmd, 0)
                    &&& r == match Self::plan_error(old(self), &cmd) {
                        Some(e) => Err::<(), PuddleError>(e),
                        None => Ok::<(), PuddleError>(()),
                    }
                }
            }),
            r is Err ==> final(self).effects@ == old(self).effects@,
            // the droplet is gone, and the draining of its volume through the
            // port onto which it was brought, a port with that name, is left to
            // do
            r is Ok ==> {
                let cmd = Output { name, input: d, volume: None, output: None };
                let p = placed(&cmd, &old(self).gridview.grid, old(self).droplets())->0;
                let port = old(self).gridview.grid.cell(
                    p.to_board(Output::port_position(old(self).droplet(d))),
                ).peripheral;
                &&& !has_droplet(final(self).droplets(), d)
                &&& final(self).one_more_effect(old(self))
                &&& port matches Some(Peripheral::Output { name: port_name, .. })
                &&& port_name@ == name@
                &&& final(self).effects@.last() == (Effect::Drain {
                    output: port->0,
                    volume: old(self).droplet(d).volume,
                })
            },
    {
        if !self.has_open(pid) {
            return Err(PuddleError::NonExistentProcess(pid));
        }
        if !self.has_droplet_of(pid, &d) {
            return Err(PuddleError::NonExistentDropletId(d));
        }
        let mut cmd = match Output::new(name, d) {
            Ok(cmd) => cmd,
            Err(e) => {
                return Err(e);
            },
        };
        let ghost cmd0 = cmd;
        let ghost ds0 = self.droplets();
        let ghost i = index_of(ds0, d);
        let ghost spot = Output::port_position(ds0[i]);
        proof {
            self.lemma_plannable_single(&cmd, d, Seq::empty());
            lemma_outcome(&cmd, &self.gridview.grid, self.droplets());
            assert(ds0[i].within(
                self.gridview.grid.height() as int,
                self.gridview.grid.width() as int,
            ));
            if placed(&cmd, &self.gridview.grid, ds0) is Some {
                let p = placed(&cmd, &self.gridview.grid, ds0)->0;
                lemma_chosen_has_room(
                    &self.gridview.grid,
                    cmd.region(ds0),
                    cmd.anchor(ds0),
                    ds0,
                    cmd.input_ids(),
                );
                lemma_delivered_one(ds0, d, spot, p);
                lemma_delivered_names(ds0, seq![d], seq![spot], p, d);
                assert(cmd.input_locations(ds0) =~= seq![spot]);
            }
        }
        match self.gridview.plan(&mut cmd) {
            Err(e) => Err(PuddleError::PlanError(e)),
            Ok(_) => {
                let fx = cmd.finalize(&self.gridview.snapshot);
                self.note(fx);
                proof {
                    assert(seq![d][0] == d);
                    self.lemma_follows(old(self), pid, cmd.input_ids() + cmd.output_ids());
                    let p = placed(&cmd0, &self.gridview.grid, ds0)->0;
                    let st = staged(&cmd0, ds0, p);
                    assert(st == delivered(ds0, seq![d], seq![spot], p));
                    assert(index_of(st, d) == i);
                    lemma_has_after_remove(st, i, d);
                    assert(self.effects@.drop_last() =~= old(self).effects@);
                }
                Ok(())
            },
        }
    }

    /// Splits the droplet `d` of the process `pid` into two droplets, which
    /// are named in the answer, the left one first. The split takes place at
    /// the first place, the board read row by row, where the droplet with two
    /// free columns on either side keeps the minimum separation from every
    /// other droplet.
    pub fn split(&mut self, pid: ProcessId, d: DropletId) -> (r: PuddleResult<
        (DropletId, DropletId),
    >)
        requires
            old(self).wf(),
        ensures
            final(self).follows(old(self), pid),
            final(self).effects@ == old(self).effects@,
            ({
                let cmd = Split {
                    input: d,
                    output0: old(self).new_id(pid, 0),
                    output1: old(self).new_id(pid, 1),
                };
                if !old(self).is_open(pid) {
                    r == Err::<(DropletId, DropletId), PuddleError>(
                        PuddleError::NonExistentProcess(pid),
                    ) && final(self).unchanged(old(self))
                } else if !old(self).owns(pid, d) {
                    r == Err::<(DropletId, DropletId), PuddleError>(
                        PuddleError::NonExistentDropletId(d),
                    ) && final(self).unchanged(old(self))
                } else if old(self).next_droplet_id >= usize::MAX - 1 {
                    r == Err::<(DropletId, DropletId), PuddleError>(
                        PuddleError::DropletIdsExhausted,
                    ) && final(self).unchanged(old(self))
                } else {
                    &&& final(self).planned(old(self), &cmd, 2)
                    &&& r == match Self::plan_error(old(self), &cmd) {
                        Some(e) => Err::<(DropletId, DropletId), PuddleError>(e),
                        None => Ok::<(DropletId, DropletId), PuddleError>(
                            (cmd.output0, cmd.output1),
                        ),
                    }
                }
            }),
            // either half has half the volume, the height and half the
            // width, rounded up; the halves lie in one row with at least one
            // free column between them
            r is Ok ==> {
                let ds = final(self).droplets();
                let left = ds[ds.len() - 2];
                let right = ds[ds.len() - 1];
                let whole = old(self).droplet(d);
                &&& ds.len() >= 2
                &&& left.id == r->Ok_0.0
                &&& right.id == r->Ok_0.1
                &&& left.volume == whole.volume / 2
                &&& right.volume == whole.volume / 2
                &&& left.dimensions == Split::half_dimensions(whole)
                &&& right.dimensions == Split::half_dimensions(whole)
                &&& left.dimensions.x + right.dimensions.x >= whole.dimensions.x
                &&& left.location.y == right.location.y
                &&& left.location.x + left.dimensions.x < right.location.x
            },
    {
        if !self.has_open(pid) {
            return Err(PuddleError::NonExistentProcess(pid));
        }
        if !self.has_droplet_of(pid, &d) {
            return Err(PuddleError::NonExistentDropletId(d));
        }
        if self.next_droplet_id >= usize::MAX - 1 {
            return Err(PuddleError::DropletIdsExhausted);
        }
        let out0 = DropletId { id: self.next_droplet_id, process_id: pid };
        let out1 = DropletId { id: self.next_droplet_id + 1, process_id: pid };
        let mut cmd = match Split::new(d, out0, out1) {
            Ok(cmd) => cmd,
            Err(e) => {
                return Err(e);
            },
        };
        let ghost cmd0 = cmd;
        let ghost ds0 = self.droplets();
        let ghost i = index_of(ds0, d);
        let ghost spot = Location { y: 0, x: 2 };
        proof {
            assert(seq![out0, out1][0] == out0 && seq![out0, out1][1] == out1);
            self.lemma_plannable_single(&cmd, d, seq![out0, out1]);
            lemma_outcome(&cmd, &self.gridview.grid, self.droplets());
            assert(!has_droplet(ds0, out0));
            assert(ds0[i].within(
                self.gridview.grid.height() as int,
                self.gridview.grid.width() as int,
            ));
            if placed(&cmd, &self.gridview.grid, ds0) is Some {
                let p = placed(&cmd, &self.gridview.grid, ds0)->0;
                lemma_chosen_has_room(
                    &self.gridview.grid,
                    cmd.region(ds0),
                    cmd.anchor(ds0),
                    ds0,
                    cmd.input_ids(),
                );
                lemma_delivered_one(ds0, d, spot, p);
                lemma_delivered_names(ds0, seq![d], seq![spot], p, d);
                assert(cmd.input_locations(ds0) =~= seq![spot]);
            }
        }
        match self.gridview.plan(&mut cmd) {
            Err(e) => Err(PuddleError::PlanError(e)),
            Ok(_) => {
                self.next_droplet_id = self.next_droplet_id + 2;
                proof {
                    assert(seq![d][0] == d);
                    assert(bounded(old(self).droplets(), self.next_droplet_id as int));
                    assert(below(seq![out0, out1], self.next_droplet_id as int));
                    assert forall|k: int|
                        0 <= k < (cmd.input_ids() + cmd.output_ids()).len() implies (
                    #[trigger] (cmd.input_ids() + cmd.output_ids())[k]).process_id == pid by {
                        assert(k == 0 || k == 1 || k == 2);
                    }
                    self.lemma_follows(old(self), pid, cmd.input_ids() + cmd.output_ids());
                    let p = placed(&cmd0, &self.gridview.grid, ds0)->0;
                    let st = staged(&cmd0, ds0, p);
                    assert(st == delivered(ds0, seq![d], seq![spot], p));
                    assert(index_of(st, d) == i);
                    assert(st[i] == (Droplet { location: p.to_board(spot), ..ds0[i] }));
                    assert(self.droplets() == cmd0.separated(st, p.offset));
                }
                Ok((out0, out1))
            },
        }
    }

    /// Takes `vol` units of the substance `name` in through an input port, as
    /// a droplet of the dimensions `dim` for the process `pid`. The droplet
    /// lies left of the port, the port beside its middle row. The port is
    /// the first one of that substance, the board read row by row, at which
    /// the droplet and the port's cell keep the minimum separation from every
    /// other droplet. A footprint without cells, or one larger than any
    /// grid, has no place.
    pub fn input(&mut self, pid: ProcessId, name: String, vol: u64, dim: Location) -> (r:
        PuddleResult<DropletId>)
        requires
            old(self).wf(),
        ensures
            final(self).follows(old(self), pid),
            ({
                let cmd = Input {
                    substance: name,
                    volume: vol,
                    dimensions: dim,
                    output: old(self).new_id(pid, 0),
                    input: None,
                };
                if !old(self).is_open(pid) {
                    r == Err::<DropletId, PuddleError>(PuddleError::NonExistentProcess(pid))
                        && final(self).unchanged(old(self))
                } else if old(self).next_droplet_id == usize::MAX {
                    r == Err::<DropletId, PuddleError>(PuddleError::DropletIdsExhausted)
                        && final(self).unchanged(old(self))
                } else if !(1 <= dim.y <= MAX_DIM && 1 <= dim.x < MAX_DIM) {
                    r == Err::<DropletId, PuddleError>(
                        PuddleError::PlanError(PlanError::PlaceError),
                    ) && final(self).unchanged(old(self))
                } else {
                    match placed(&cmd, &old(self).gridview.grid, old(self).droplets()) {
                        None => r == Err::<DropletId, PuddleError>(
                            PuddleError::PlanError(PlanError::PlaceError),
                        ) && final(self).unchanged(old(self)),
                        Some(p) => {
                            let port = old(self).gridview.grid.cell(
                                p.to_board(cmd.port_position()),
                            ).peripheral;
                            &&& r == Ok::<DropletId, PuddleError>(cmd.output)
                            &&& final(self).droplets() == old(self).droplets().push(
                                cmd.taken_in(p.offset),
                            )
                            &&& final(self).ticks() == old(self).ticks() + seq![
                                old(self).droplets(),
                                final(self).droplets(),
                            ]
                            &&& final(self).next_droplet_id == old(self).next_droplet_id + 1
                            &&& port matches Some(Peripheral::Input { name: substance, .. })
                            &&& substance@ == name@
                            &&& final(self).effects@.len() == old(self).effects@.len() + 10
                            &&& final(self).effects@.take(old(self).effects@.len() as int)
                                == old(self).effects@
                            &&& Input::dispensing(
                                final(self).effects@.skip(old(self).effects@.len() as int),
                                port->0,
                                vol,
                            )
                        },
                    }
                }
            }),
            r is Err ==> final(self).effects@ == old(self).effects@,
    {
        if !self.has_open(pid) {
            return Err(PuddleError::NonExistentProcess(pid));
        }
        if self.next_droplet_id == usize::MAX {
            return Err(PuddleError::DropletIdsExhausted);
        }
        if dim.y < 1 || dim.x < 1 || dim.y > MAX_DIM as i32 || dim.x >= MAX_DIM as i32 {
            return Err(PuddleError::PlanError(PlanError::PlaceError));
        }
        let out = DropletId { id: self.next_droplet_id, process_id: pid };
        let mut cmd = match Input::new(name, vol, dim, out) {
            Ok(cmd) => cmd,
            Err(e) => {
                return Err(e);
            },
        };
        let ghost cmd0 = cmd;
        proof {
            self.lemma_new_ids_are_fresh(seq![out]);
            lemma_outcome_without_inputs(&cmd, &self.gridview.grid, self.droplets());
            if placed(&cmd, &self.gridview.grid, self.droplets()) is Some {
                lemma_chosen_has_room(
                    &self.gridview.grid,
                    cmd.region(self.droplets()),
                    cmd.anchor(self.droplets()),
                    self.droplets(),
                    cmd.input_ids(),
                );
            }
        }
        match self.gridview.plan(&mut cmd) {
            Err(e) => Err(PuddleError::PlanError(e)),
            Ok(_) => {
                let fx = cmd.finalize(&self.gridview.snapshot);
                let ghost listed = fx@;
                self.note(fx);
                self.next_droplet_id = self.next_droplet_id + 1;
                proof {
                    assert(seq![out][0] == out);
                    assert(bounded(old(self).droplets(), self.next_droplet_id as int));
                    assert(below(seq![out], self.next_droplet_id as int));
                    self.lemma_follows(old(self), pid, cmd.input_ids() + cmd.output_ids());
                    let ds0 = old(self).droplets();
                    let p = placed(&cmd0, &self.gridview.grid, ds0)->0;
                    assert(seq![ds0] + seq![ds0.push(cmd0.taken_in(p.offset))] =~= seq![
                        ds0,
                        ds0.push(cmd0.taken_in(p.offset)),
                    ]);
                    let n = old(self).effects@.len() as int;
                    assert(self.effects@.take(n) =~= old(self).effects@);
                    assert(self.effects@.skip(n) =~= listed);
                }
                Ok(out)
            },
        }
    }

    /// What is known of the droplet that a merge of `d1` and `d2` leaves last
    /// on the board, once the planner has found the place `p`.
    proof fn lemma_merged_last(&self, cmd: &Combine, d1: DropletId, d2: DropletId)
        requires
            self.wf(),
            cmd.input0 == d1,
            cmd.input1 == d2,
            d1 != d2,
            has_droplet(self.droplets(), d1),
            has_droplet(self.droplets(), d2),
            placed(cmd, &self.gridview.grid, self.droplets()) is Some,
        ensures
            ({
                let ds0 = self.droplets();
                let p = placed(cmd, &self.gridview.grid, ds0)->0;
                let st = staged(cmd, ds0, p);
                &&& st.len() >= 1
                &&& st.last() == cmd.merged_droplet(self.droplet(d1), self.droplet(d2), p.offset)
                &&& cmd.pin_d0 ==> p.offset == Combine::stacked(
                    self.droplet(d1),
                    self.droplet(d2),
                ).location
            }),
    {
        let ds0 = self.droplets();
        let p = placed(cmd, &self.gridview.grid, ds0)->0;
        let g = cmd.grouped(ds0);
        let locs = cmd.input_locations(ds0);
        let inputs = cmd.input_ids();
        let i0 = index_of(ds0, d1);
        let i1 = index_of(ds0, d2);
        assert(inputs[0] == d1 && inputs[1] == d2);
        assert(ds0[i0].id != ds0[i1].id);
        lemma_same_names(ds0, g, d1);
        lemma_same_names(ds0, g, d2);
        lemma_chosen_has_room(
            &self.gridview.grid,
            cmd.region(ds0),
            cmd.anchor(ds0),
            g,
            inputs,
        );
        let dl = delivered(g, inputs, locs, p);
        lemma_delivered_at(g, inputs, locs, p, 0);
        lemma_delivered_at(g, inputs, locs, p, 1);
        lemma_delivered_names(g, inputs, locs, p, d1);
        lemma_remove_index(dl, i0);
        lemma_unique_after_remove(dl, i0);
        let rest = dl.remove(i0);
        let j1 = if i1 < i0 {
            i1
        } else {
            i1 - 1
        };
        assert(rest[j1] == dl[i1]);
        lemma_index_of(rest, d2, j1);
    }

    /// Plans the merge of `d2` and `d1`, two different droplets of the process
    /// `pid`, under the next sequence number.
    fn merge(&mut self, pid: ProcessId, d1: DropletId, d2: DropletId, pin: bool) -> (r: Result<
        DropletId,
        PlanError,
    >)
        requires
            old(self).wf(),
            old(self).owns(pid, d1),
            old(self).owns(pid, d2),
            d1 != d2,
            old(self).next_droplet_id < usize::MAX,
        ensures
            final(self).follows(old(self), pid),
            final(self).effects@ == old(self).effects@,
            untouched(
                old(self).droplets(),
                final(self).droplets(),
                seq![d1, d2, old(self).new_id(pid, 0)],
            ),
            ({
                let cmd = Combine {
                    input0: d1,
                    input1: d2,
                    output: old(self).new_id(pid, 0),
                    pin_d0: pin,
                };
                &&& final(self).planned(old(self), &cmd, 1)
                &&& r == match outcome(&cmd, &old(self).gridview.grid, old(self).droplets()) {
                    Ok(_) => Ok::<DropletId, PlanError>(cmd.output),
                    Err(e) => Err::<DropletId, PlanError>(e),
                }
                &&& r is Ok ==> final(self).droplets().len() >= 1 && final(self).droplets().last()
                    == cmd.merged_droplet(
                    old(self).droplet(d1),
                    old(self).droplet(d2),
                    final(self).droplets().last().location,
                ) && (pin ==> final(self).droplets().last().location == Combine::stacked(
                    old(self).droplet(d1),
                    old(self).droplet(d2),
                ).location)
            }),
    {
        let out = DropletId { id: self.next_droplet_id, process_id: pid };
        let mut cmd = Combine { input0: d1, input1: d2, output: out, pin_d0: pin };
        proof {
            self.lemma_plannable_pair(&cmd, d1, d2, out);
            lemma_outcome(&cmd, &self.gridview.grid, self.droplets());
            if placed(&cmd, &self.gridview.grid, self.droplets()) is Some {
                self.lemma_merged_last(&cmd, d1, d2);
            }
        }
        match self.gridview.plan(&mut cmd) {
            Err(e) => {
                proof {
                    self.lemma_follows(old(self), pid, Seq::empty());
                }
                Err(e)
            },
            Ok(_) => {
                self.next_droplet_id = self.next_droplet_id + 1;
                proof {
                    assert(seq![out][0] == out);
                    assert(bounded(old(self).droplets(), self.next_droplet_id as int));
                    assert(below(seq![out], self.next_droplet_id as int));
                    let ids = cmd.input_ids() + cmd.output_ids();
                    assert(ids =~= seq![d1, d2, out]);
                    assert forall|k: int| 0 <= k < ids.len() implies (#[trigger] ids[k]).process_id
                        == pid by {
                        assert(k == 0 || k == 1 || k == 2);
                    }
                    self.lemma_follows(old(self), pid, ids);
                }
                Ok(out)
            },
        }
    }

    /// Plans the jostling of the droplet `d` of the process `pid`, which
    /// goes on under the next sequence number.
    fn jostle(&mut self, pid: ProcessId, d: DropletId) -> (r: Result<DropletId, PlanError>)
        requires
            old(self).wf(),
            old(self).owns(pid, d),
            old(self).next_droplet_id < usize::MAX,
        ensures
            final(self).follows(old(self), pid),
            final(self).effects@ == old(self).effects@,
            untouched(
                old(self).droplets(),
                final(self).droplets(),
                seq![d, old(self).new_id(pid, 0)],
            ),
            ({
                let cmd = Agitate {
                    input: d,
                    output: old(self).new_id(pid, 0),
                    n_agitation_loops: 1,
                };
                &&& final(self).planned(old(self), &cmd, 1)
                &&& r == match outcome(&cmd, &old(self).gridview.grid, old(self).droplets()) {
                    Ok(_) => Ok::<DropletId, PlanError>(cmd.output),
                    Err(e) => Err::<DropletId, PlanError>(e),
                }
                &&& r is Ok ==> final(self).droplets().len() >= 1 && final(self).droplets().last() == (
                Droplet {
                    id: cmd.output,
                    location: final(self).droplets().last().location,
                    ..old(self).droplet(d)
                })
            }),
    {
        let out = DropletId { id: self.next_droplet_id, process_id: pid };
        let mut cmd = Agitate { input: d, output: out, n_agitation_loops: 1 };
        let ghost cmd0 = cmd;
        let ghost ds0 = self.droplets();
        let ghost i = index_of(ds0, d);
        let ghost spot = Location { y: 0, x: 0 };
        proof {
            self.lemma_plannable_single(&cmd, d, seq![out]);
            lemma_outcome(&cmd, &self.gridview.grid, self.droplets());
            if placed(&cmd, &self.gridview.grid, ds0) is Some {
                let p = placed(&cmd, &self.gridview.grid, ds0)->0;
                lemma_delivered_one(ds0, d, spot, p);
                lemma_delivered_names(ds0, seq![d], seq![spot], p, d);
                assert(cmd.input_locations(ds0) =~= seq![spot]);
            }
        }
        match self.gridview.plan(&mut cmd) {
            Err(e) => {
                proof {
                    self.lemma_follows(old(self), pid, Seq::empty());
                }
                Err(e)
            },
            Ok(_) => {
                self.next_droplet_id = self.next_droplet_id + 1;
                proof {
                    assert(seq![out][0] == out);
                    assert(seq![d][0] == d);
                    assert(bounded(ds0, self.next_droplet_id as int));
                    assert(below(seq![out], self.next_droplet_id as int));
                    let ids = cmd.input_ids() + cmd.output_ids();
                    assert(ids =~= seq![d, out]);
                    self.lemma_follows(old(self), pid, ids);
                    let p = placed(&cmd0, &self.gridview.grid, ds0)->0;
                    let st = staged(&cmd0, ds0, p);
                    assert(st == delivered(ds0, seq![d], seq![spot], p));
                    assert(index_of(st, d) == i);
                    assert(st[i] == (Droplet { location: p.to_board(spot), ..ds0[i] }));
                }
                Ok(out)
            },
        }
    }

    /// Merges the droplet `d2` into the droplet `d1`, both of the process
    /// `pid`: `d1` stays where it is, `d2` is brought right above it, and the
    /// merged droplet goes on under a new name. The plan fails for want of a
    /// place if the merged droplet would not lie on the board or not keep the
    /// minimum separation from another droplet, and for want of a route if
    /// the router cannot bring `d2` there. A droplet cannot be merged into
    /// itself.
    pub fn combine_into(&mut self, pid: ProcessId, d1: DropletId, d2: DropletId) -> (r:
        PuddleResult<DropletId>)
        requires
            old(self).wf(),
        ensures
            final(self).follows(old(self), pid),
            final(self).effects@ == old(self).effects@,
            ({
                let cmd = Combine {
                    input0: d1,
                    input1: d2,
                    output: old(self).new_id(pid, 0),
                    pin_d0: true,
                };
                if !old(self).is_open(pid) {
                    r == Err::<DropletId, PuddleError>(PuddleError::NonExistentProcess(pid))
                        && final(self).unchanged(old(self))
                } else if !old(self).owns(pid, d1) {
                    r == Err::<DropletId, PuddleError>(PuddleError::NonExistentDropletId(d1))
                        && final(self).unchanged(old(self))
                } else if !old(self).owns(pid, d2) || d2 == d1 {
                    r == Err::<DropletId, PuddleError>(PuddleError::NonExistentDropletId(d2))
                        && final(self).unchanged(old(self))
                } else if old(self).next_droplet_id == usize::MAX {
                    r == Err::<DropletId, PuddleError>(PuddleError::DropletIdsExhausted)
                        && final(self).unchanged(old(self))
                } else {
                    &&& final(self).planned(old(self), &cmd, 1)
                    &&& r == match Self::plan_error(old(self), &cmd) {
                        Some(e) => Err::<DropletId, PuddleError>(e),
                        None => Ok::<DropletId, PuddleError>(cmd.output),
                    }
                }
            }),
            // the merged droplet begins as many rows above `d1` as `d2` was
            // high, in the column of `d1`; it is as high as both together
            // and as wide as the wider one, and has the volume of both
            r is Ok ==> {
                let first = old(self).droplet(d1);
                let second = old(self).droplet(d2);
                final(self).droplets().last() == (Droplet {
                    id: r->Ok_0,
                    location: Location {
                        y: (first.location.y - second.dimensions.y) as i32,
                        x: first.location.x,
                    },
                    dimensions: Combine::stacked(first, second).dimensions,
                    volume: Combine::stacked(first, second).volume,
                    destination: None,
                    collision_group: r->Ok_0.id,
                    pinned: false,
                })
            },
    {
        if !self.has_open(pid) {
            return Err(PuddleError::NonExistentProcess(pid));
        }
        if !self.has_droplet_of(pid, &d1) {
            return Err(PuddleError::NonExistentDropletId(d1));
        }
        if !self.has_droplet_of(pid, &d2) || d2 == d1 {
            return Err(PuddleError::NonExistentDropletId(d2));
        }
        if self.next_droplet_id == usize::MAX {
            return Err(PuddleError::DropletIdsExhausted);
        }
        match self.merge(pid, d1, d2, true) {
            Ok(id) => Ok(id),
            Err(e) => Err(PuddleError::PlanError(e)),
        }
    }

    /// A merge of two different droplets on the board into `out`, whose
    /// sequence number is the next one, can be planned.
    proof fn lemma_plannable_pair(&self, cmd: &Combine, d1: DropletId, d2: DropletId, out: DropletId)
        requires
            self.wf(),
            cmd.input0 == d1,
            cmd.input1 == d2,
            cmd.output == out,
            d1 != d2,
            has_droplet(self.droplets(), d1),
            has_droplet(self.droplets(), d2),
            out.id >= self.next_droplet_id,
        ensures
            plannable(cmd, &self.gridview),
            !cmd.bypassed(self.droplets()),
    {
        self.lemma_new_ids_are_fresh(seq![out]);
        assert(seq![out][0] == out);
        assert(seq![d1, d2][0] == d1 && seq![d1, d2][1] == d2);
    }

    /// Mixes the droplets `d1` and `d2` of the process `pid`: the two are
    /// merged, `d2` on top of `d1`, at the first place, the board read row by
    /// row, where the merged droplet keeps the minimum separation from every
    /// other droplet; the merged droplet is then jostled once around, at the
    /// first place where it has a free row and a free column beside it, and
    /// goes on under a new name. If either step cannot be planned the board
    /// is left as it was. A droplet cannot be mixed with itself.
    pub fn mix(&mut self, pid: ProcessId, d1: DropletId, d2: DropletId) -> (r: PuddleResult<
        DropletId,
    >)
        requires
            old(self).wf(),
        ensures
            final(self).follows(old(self), pid),
            final(self).effects@ == old(self).effects@,
            ({
                let merge = Combine {
                    input0: d1,
                    input1: d2,
                    output: old(self).new_id(pid, 0),
                    pin_d0: false,
                };
                let jostle = Agitate {
                    input: old(self).new_id(pid, 0),
                    output: old(self).new_id(pid, 1),
                    n_agitation_loops: 1,
                };
                if !old(self).is_open(pid) {
                    r == Err::<DropletId, PuddleError>(PuddleError::NonExistentProcess(pid))
                        && final(self).unchanged(old(self))
                } else if !old(self).owns(pid, d1) {
                    r == Err::<DropletId, PuddleError>(PuddleError::NonExistentDropletId(d1))
                        && final(self).unchanged(old(self))
                } else if !old(self).owns(pid, d2) || d2 == d1 {
                    r == Err::<DropletId, PuddleError>(PuddleError::NonExistentDropletId(d2))
                        && final(self).unchanged(old(self))
                } else if old(self).next_droplet_id >= usize::MAX - 1 {
                    r == Err::<DropletId, PuddleError>(PuddleError::DropletIdsExhausted)
                        && final(self).unchanged(old(self))
                } else {
                    match outcome(&merge, &old(self).gridview.grid, old(self).droplets()) {
                        Err(e) => r == Err::<DropletId, PuddleError>(PuddleError::PlanError(e))
                            && final(self).unchanged(old(self)),
                        Ok((merged, merge_frames)) => match outcome(
                            &jostle,
                            &old(self).gridview.grid,
                            merged,
                        ) {
                            Err(e) => r == Err::<DropletId, PuddleError>(
                                PuddleError::PlanError(e),
                            ) && final(self).unchanged(old(self)),
                            Ok((jostled, jostle_frames)) => {
                                &&& r == Ok::<DropletId, PuddleError>(jostle.output)
                                &&& final(self).droplets() == jostled
                                &&& final(self).ticks() == old(self).ticks() + merge_frames
                                    + jostle_frames
                                &&& final(self).next_droplet_id == old(self).next_droplet_id + 2
                            },
                        },
                    }
                }
            }),
            // the mixed droplet has the volume of both, is as high as both
            // together and as wide as the wider one
            r is Ok ==> {
                let first = old(self).droplet(d1);
                let second = old(self).droplet(d2);
                let mixed = final(self).droplets().last();
                &&& mixed.id == r->Ok_0
                &&& mixed.volume == Combine::stacked(first, second).volume
                &&& mixed.dimensions == Combine::stacked(first, second).dimensions
            },
    {
        if !self.has_open(pid) {
            return Err(PuddleError::NonExistentProcess(pid));
        }
        if !self.has_droplet_of(pid, &d1) {
            return Err(PuddleError::NonExistentDropletId(d1));
        }
        if !self.has_droplet_of(pid, &d2) || d2 == d1 {
            return Err(PuddleError::NonExistentDropletId(d2));
        }
        if self.next_droplet_id >= usize::MAX - 1 {
            return Err(PuddleError::DropletIdsExhausted);
        }
        let saved = self.gridview.snapshot.droplets.clone();
        let n_frames = self.gridview.frames.len();
        let ghost ds0 = self.droplets();
        let merged_id = match self.merge(pid, d1, d2, false) {
            Ok(id) => id,
            Err(e) => {
                return Err(PuddleError::PlanError(e));
            },
        };
        let ghost ds_a = self.droplets();
        proof {
            lemma_index_of(ds_a, merged_id, ds_a.len() - 1);
        }
        match self.jostle(pid, merged_id) {
            Err(e) => {
                proof {
                    assert(self.gridview.frames@.len() == self.ticks().len());
                    assert(old(self).gridview.frames@.len() == old(self).ticks().len());
                    assert(self.ticks().take(n_frames as int) =~= old(self).ticks());
                }
                self.gridview.restore(saved, n_frames);
                self.next_droplet_id = self.next_droplet_id - 1;
                proof {
                    self.lemma_follows(old(self), pid, Seq::empty());
                }
                Err(PuddleError::PlanError(e))
            },
            Ok(out) => {
                proof {
                    let first = seq![d1, d2, merged_id];
                    let second = seq![merged_id, out];
                    let all = seq![d1, d2, merged_id, out];
                    assert(all[0] == d1 && all[1] == d2 && all[2] == merged_id && all[3] == out);
                    assert forall|id: DropletId| first.contains(id) implies all.contains(id) by {
                        let k = choose|k: int| 0 <= k < first.len() && first[k] == id;
                        assert(k == 0 || k == 1 || k == 2);
                    }
                    assert forall|id: DropletId| second.contains(id) implies all.contains(id) by {
                        let k = choose|k: int| 0 <= k < second.len() && second[k] == id;
                        assert(k == 0 || k == 1);
                    }
                    lemma_untouched_twice(ds0, ds_a, self.droplets(), first, second, all);
                    self.lemma_follows(old(self), pid, all);
                }
                Ok(out)
            },
        }
    }
}

} // verus!
