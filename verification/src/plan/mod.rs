//! Planning: where a command's region goes on the board, and how its input
//! droplets get there.

use vstd::prelude::*;

use crate::command::{lemma_among, regrouped, Command};
use crate::grid::droplet::{Droplet, DropletId};
use crate::grid::grid::Grid;
use crate::grid::gridview::{
    all_within, below, bounded, collision_free, fresh, has_droplet, ids_unique, index_of,
    keeps_bounds, lemma_same_names, lemma_untouched_twice, untouched, GridView, Placement,
};
use crate::grid::location::Location;
use crate::plan::place::{blocks, chosen, has_room};
use crate::plan::route::{lemma_routed_idle, route_frames, routed};

pub mod place;
pub mod route;

verus! {

/// Why a command could not be planned.
#[derive(Clone, Copy, Debug, PartialEq, Eq, Structural)]
pub enum PlanError {
    /// The board has no place for the region of the command.
    PlaceError,
    /// A place was found, but the input droplets cannot be brought there.
    RouteError,
}

/// The droplets once each input droplet has been given its destination: the
/// cell of the board that stands for its position in the region.
pub open spec fn dispatched(
    ds: Seq<Droplet>,
    inputs: Seq<DropletId>,
    locs: Seq<Location>,
    p: Placement,
) -> Seq<Droplet> {
    Seq::new(
        ds.len(),
        |i: int|
            if inputs.contains(ds[i].id) {
                Droplet {
                    destination: Some(p.to_board(locs[inputs.index_of(ds[i].id)])),
                    ..ds[i]
                }
            } else {
                ds[i]
            },
    )
}

/// The droplets once each input droplet stands at its position in the
/// region.
pub open spec fn delivered(
    ds: Seq<Droplet>,
    inputs: Seq<DropletId>,
    locs: Seq<Location>,
    p: Placement,
) -> Seq<Droplet> {
    Seq::new(
        ds.len(),
        |i: int|
            if inputs.contains(ds[i].id) {
                Droplet { location: p.to_board(locs[inputs.index_of(ds[i].id)]), ..ds[i] }
            } else {
                ds[i]
            },
    )
}

/// Where there are no inputs, nothing is delivered.
pub proof fn lemma_delivered_none(ds: Seq<Droplet>, locs: Seq<Location>, p: Placement)
    ensures
        delivered(ds, Seq::<DropletId>::empty(), locs, p) == ds,
{
    assert(delivered(ds, Seq::<DropletId>::empty(), locs, p) =~= ds);
}

/// Where there are no inputs, no droplet is given a destination.
pub proof fn lemma_dispatched_none(ds: Seq<Droplet>, locs: Seq<Location>, p: Placement)
    ensures
        dispatched(ds, Seq::<DropletId>::empty(), locs, p) == ds,
{
    assert(dispatched(ds, Seq::<DropletId>::empty(), locs, p) =~= ds);
}

/// How planning ends for a command without inputs that asks nothing of the
/// droplets: there is nothing to route, so that the plan fails only for want
/// of a place.
pub proof fn lemma_outcome_without_inputs<C: Command>(cmd: &C, grid: &Grid, ds0: Seq<Droplet>)
    requires
        cmd.input_ids() =~= Seq::<DropletId>::empty(),
        cmd.requested(ds0) == ds0,
        !cmd.bypassed(ds0),
        forall|i: int| 0 <= i < ds0.len() ==> (#[trigger] ds0[i]).destination is None,
    ensures
        outcome(cmd, grid, ds0) == (match placed(cmd, grid, ds0) {
            None => Err::<(Seq<Droplet>, Seq<Seq<Droplet>>), PlanError>(PlanError::PlaceError),
            Some(p) => Ok::<(Seq<Droplet>, Seq<Seq<Droplet>>), PlanError>(
                (
                    cmd.ran(cmd.pre_ran(ds0, p.offset), p.offset),
                    seq![cmd.pre_ran(ds0, p.offset)] + cmd.run_frames(
                        cmd.pre_ran(ds0, p.offset),
                        p.offset,
                    ),
                ),
            ),
        }),
        placed(cmd, grid, ds0) is Some ==> staged(cmd, ds0, placed(cmd, grid, ds0)->0)
            == cmd.pre_ran(ds0, placed(cmd, grid, ds0)->0.offset),
{
    reveal(outcome);
    match placed(cmd, grid, ds0) {
        None => {},
        Some(p) => {
            let locs = cmd.input_locations(ds0);
            lemma_dispatched_none(ds0, locs, p);
            lemma_delivered_none(ds0, locs, p);
            lemma_routed_idle(ds0, grid.height() as int, grid.width() as int);
            let ds3 = cmd.pre_ran(ds0, p.offset);
            assert(Seq::<Seq<Droplet>>::empty() + seq![ds3] + cmd.run_frames(ds3, p.offset)
                =~= seq![ds3] + cmd.run_frames(ds3, p.offset));
        },
    }
}

/// Delivery changes no name.
pub proof fn lemma_delivered_names(
    ds: Seq<Droplet>,
    inputs: Seq<DropletId>,
    locs: Seq<Location>,
    p: Placement,
    id: DropletId,
)
    ensures
        has_droplet(delivered(ds, inputs, locs, p), id) == has_droplet(ds, id),
        ids_unique(delivered(ds, inputs, locs, p)) == ids_unique(ds),
        ids_unique(ds) && has_droplet(ds, id) ==> index_of(delivered(ds, inputs, locs, p), id)
            == index_of(ds, id),
{
    let after = delivered(ds, inputs, locs, p);
    lemma_same_names(ds, after, id);
}

/// Where the single input `id` is brought to the position `loc` of the
/// region, that droplet stands there, and nothing else has changed.
pub proof fn lemma_delivered_one(ds: Seq<Droplet>, id: DropletId, loc: Location, p: Placement)
    requires
        ids_unique(ds),
        has_droplet(ds, id),
    ensures
        delivered(ds, seq![id], seq![loc], p) == ds.update(
            index_of(ds, id),
            Droplet { location: p.to_board(loc), ..ds[index_of(ds, id)] },
        ),
{
    let inputs = seq![id];
    let after = delivered(ds, inputs, seq![loc], p);
    let i = index_of(ds, id);
    assert(inputs[0] == id);
    assert(inputs.index_of(id) == 0) by {
        inputs.index_of_first_ensures(id);
    }
    assert forall|k: int| 0 <= k < ds.len() implies after[k] == ds.update(
        i,
        Droplet { location: p.to_board(loc), ..ds[i] },
    )[k] by {
        if inputs.contains(ds[k].id) {
            assert(ds[k].id == id);
            if k != i {
                assert(ds[k].id != ds[i].id);
            }
        } else if k == i {
            assert(inputs[0] == ds[k].id);
        }
    }
    assert(after =~= ds.update(i, Droplet { location: p.to_board(loc), ..ds[i] }));
}

/// Delivery brings the input at place `k` of `inputs` to the position at
/// place `k` of `locs`.
pub proof fn lemma_delivered_at(
    ds: Seq<Droplet>,
    inputs: Seq<DropletId>,
    locs: Seq<Location>,
    p: Placement,
    k: int,
)
    requires
        ids_unique(ds),
        inputs.no_duplicates(),
        0 <= k < inputs.len(),
        has_droplet(ds, inputs[k]),
    ensures
        delivered(ds, inputs, locs, p)[index_of(ds, inputs[k])] == (Droplet {
            location: p.to_board(locs[k]),
            ..ds[index_of(ds, inputs[k])]
        }),
        index_of(delivered(ds, inputs, locs, p), inputs[k]) == index_of(ds, inputs[k]),
{
    let id = inputs[k];
    inputs.index_of_first_ensures(id);
    let m = inputs.index_of(id);
    assert(inputs[m] == id);
    if m != k {
        assert(inputs[m] != inputs[k]);
    }
    lemma_delivered_names(ds, inputs, locs, p, id);
}

/// What the planner asks of a command and of the board: the board is
/// settled; and unless the board already shows what the command would do, the
/// command can make its request, its inputs are on the board and no two of
/// them are the same, and the names of its outputs are new.
pub open spec fn plannable<C: Command>(cmd: &C, gv: &GridView) -> bool {
    &&& gv.settled()
    &&& !cmd.bypassed(gv.droplets()) ==> {
        &&& cmd.can_request(gv)
        &&& cmd.input_ids().no_duplicates()
        &&& forall|k: int|
            0 <= k < cmd.input_ids().len() ==> has_droplet(
                gv.droplets(),
                #[trigger] cmd.input_ids()[k],
            )
        &&& fresh(cmd.output_ids(), gv.droplets())
    }
}

/// Where the planner puts the region of a command on the board `grid` with
/// the droplets `ds0`, if it finds a place.
pub open spec fn placed<C: Command>(cmd: &C, grid: &Grid, ds0: Seq<Droplet>) -> Option<Placement> {
    chosen(grid, cmd.region(ds0), cmd.anchor(ds0), cmd.requested(ds0), cmd.input_ids())
}

/// The droplets as the router sets out with them: the request has been made,
/// and each input has its destination in the region at `p`.
pub open spec fn underway<C: Command>(cmd: &C, ds0: Seq<Droplet>, p: Placement) -> Seq<Droplet> {
    dispatched(cmd.requested(ds0), cmd.input_ids(), cmd.input_locations(ds0), p)
}

/// The droplets as the command finds them when it runs: the request has been
/// made, the inputs stand at their positions in the region at `p`, and
/// `pre_run` has had its turn.
pub open spec fn staged<C: Command>(cmd: &C, ds0: Seq<Droplet>, p: Placement) -> Seq<Droplet> {
    cmd.pre_ran(
        delivered(cmd.requested(ds0), cmd.input_ids(), cmd.input_locations(ds0), p),
        p.offset,
    )
}

/// How planning a command ends on the board `grid` with the droplets `ds0`:
/// with the droplets that it leaves on the board and the frames of the ticks
/// that pass, or with the reason why no plan could be made.
///
/// A command that the board already shows changes nothing. Else the command
/// makes its request, and the planner chooses the place of the region; there
/// is no plan if it finds none. The inputs are given their destinations and
/// routed; there is no plan if the router cannot bring them there. Else they
/// stand at their positions in the region; `pre_run` has its turn, the last
/// tick of routing passes, and the command runs.
#[verifier::opaque]
pub open spec fn outcome<C: Command>(cmd: &C, grid: &Grid, ds0: Seq<Droplet>) -> Result<
    (Seq<Droplet>, Seq<Seq<Droplet>>),
    PlanError,
> {
    let h = grid.height() as int;
    let w = grid.width() as int;
    if cmd.bypassed(ds0) {
        Ok((ds0, Seq::empty()))
    } else {
        match placed(cmd, grid, ds0) {
            None => Err(PlanError::PlaceError),
            Some(p) => match routed(underway(cmd, ds0, p), h, w) {
                None => Err(PlanError::RouteError),
                Some(_) => Ok(
                    (
                        cmd.ran(staged(cmd, ds0, p), p.offset),
                        route_frames(underway(cmd, ds0, p), h, w) + seq![staged(cmd, ds0, p)]
                            + cmd.run_frames(staged(cmd, ds0, p), p.offset),
                    ),
                ),
            },
        }
    }
}

/// How planning ends, step by step: what `outcome` stands for.
pub proof fn lemma_outcome<C: Command>(cmd: &C, grid: &Grid, ds0: Seq<Droplet>)
    ensures
        cmd.bypassed(ds0) ==> outcome(cmd, grid, ds0) == Ok::<
            (Seq<Droplet>, Seq<Seq<Droplet>>),
            PlanError,
        >((ds0, Seq::empty())),
        !cmd.bypassed(ds0) && placed(cmd, grid, ds0) is None ==> outcome(cmd, grid, ds0) == Err::<
            (Seq<Droplet>, Seq<Seq<Droplet>>),
            PlanError,
        >(PlanError::PlaceError),
        !cmd.bypassed(ds0) && placed(cmd, grid, ds0) is Some ==> {
            let p = placed(cmd, grid, ds0)->0;
            let h = grid.height() as int;
            let w = grid.width() as int;
            outcome(cmd, grid, ds0) == (if routed(underway(cmd, ds0, p), h, w) is None {
                Err::<(Seq<Droplet>, Seq<Seq<Droplet>>), PlanError>(PlanError::RouteError)
            } else {
                Ok::<(Seq<Droplet>, Seq<Seq<Droplet>>), PlanError>(
                    (
                        cmd.ran(staged(cmd, ds0, p), p.offset),
                        route_frames(underway(cmd, ds0, p), h, w) + seq![staged(cmd, ds0, p)]
                            + cmd.run_frames(staged(cmd, ds0, p), p.offset),
                    ),
                )
            })
        },
{
    reveal(outcome);
}

impl GridView {
    /// Gives each input droplet its destination: the cell of the board that
    /// stands for its position in the region.
    pub fn dispatch(&mut self, locs: &Vec<Location>, inputs: &Vec<DropletId>, p: &Placement)
        requires
            old(self).sound(),
            p.wf(),
            inputs@.no_duplicates(),
            inputs@.len() == locs@.len(),
            forall|k: int|
                0 <= k < inputs@.len() ==> has_droplet(old(self).droplets(), #[trigger] inputs@[k]),
            forall|k: int| 0 <= k < locs@.len() ==> p.covers(#[trigger] locs@[k]),
        ensures
            final(self).grid == old(self).grid,
            final(self).frames == old(self).frames,
            final(self).droplets() == dispatched(old(self).droplets(), inputs@, locs@, *p),
    {
        let ghost ds = self.droplets();
        let mut k: usize = 0;
        while k < inputs.len()
            invariant
                self.grid == old(self).grid,
                self.frames == old(self).frames,
                ds == old(self).droplets(),
                ids_unique(ds),
                p.wf(),
                inputs@.no_duplicates(),
                inputs@.len() == locs@.len(),
                forall|m: int| 0 <= m < inputs@.len() ==> has_droplet(ds, #[trigger] inputs@[m]),
                forall|m: int| 0 <= m < locs@.len() ==> p.covers(#[trigger] locs@[m]),
                k <= inputs@.len(),
                self.droplets().len() == ds.len(),
                forall|i: int|
                    0 <= i < ds.len() ==> #[trigger] self.droplets()[i] == (if inputs@.take(
                        k as int,
                    ).contains(ds[i].id) {
                        Droplet {
                            destination: Some(p.to_board(locs@[inputs@.index_of(ds[i].id)])),
                            ..ds[i]
                        }
                    } else {
                        ds[i]
                    }),
            decreases inputs@.len() - k,
        {
            let ghost cur = self.droplets();
            let ghost seen = inputs@.take(k as int);
            let id = inputs[k];
            proof {
                assert(has_droplet(ds, inputs@[k as int]));
                assert forall|i: int| 0 <= i < ds.len() implies (#[trigger] cur[i]).id
                    == ds[i].id by {}
                lemma_same_names(ds, cur, id);
            }
            let i = self.snapshot.position(&id).unwrap();
            let dest = p.get(&locs[k]).unwrap();
            let mut d = self.snapshot.droplets[i];
            d.destination = Some(dest);
            self.snapshot.droplets.set(i, d);
            proof {
                let next = inputs@.take(k + 1);
                assert(cur[i as int].id == ds[i as int].id);
                inputs@.index_of_first_ensures(id);
                let m0 = inputs@.index_of(id);
                if m0 != k {
                    assert(inputs@[m0] != inputs@[k as int]);
                }
                assert(next[k as int] == id);
                if seen.contains(id) {
                    let m = choose|m: int| 0 <= m < seen.len() && seen[m] == id;
                    assert(inputs@[m] == inputs@[k as int]);
                }
                assert forall|j: int| 0 <= j < ds.len() implies #[trigger] self.droplets()[j] == (
                if next.contains(ds[j].id) {
                    Droplet {
                        destination: Some(p.to_board(locs@[inputs@.index_of(ds[j].id)])),
                        ..ds[j]
                    }
                } else {
                    ds[j]
                }) by {
                    if j != i {
                        assert(ds[j].id != ds[i as int].id);
                        assert(self.droplets()[j] == cur[j]);
                        if seen.contains(ds[j].id) {
                            let m = choose|m: int| 0 <= m < seen.len() && seen[m] == ds[j].id;
                            assert(next[m] == ds[j].id);
                        }
                        if next.contains(ds[j].id) {
                            let m = choose|m: int| 0 <= m < next.len() && next[m] == ds[j].id;
                            assert(m != k);
                            assert(seen[m] == ds[j].id);
                        }
                    }
                }
            }
            k = k + 1;
        }
        proof {
            assert(inputs@.take(k as int) == inputs@);
            assert(self.droplets() =~= dispatched(ds, inputs@, locs@, *p));
        }
    }

    /// Puts back the droplets `saved` and forgets every frame after the first
    /// `n_frames`.
    pub fn restore(&mut self, saved: Vec<Droplet>, n_frames: usize)
        requires
            n_frames <= old(self).frames@.len(),
        ensures
            final(self).grid == old(self).grid,
            final(self).droplets() == saved@,
            final(self).ticks() == old(self).ticks().take(n_frames as int),
    {
        self.snapshot.droplets = saved;
        self.frames.truncate(n_frames);
        assert(self.ticks() =~= old(self).ticks().take(n_frames as int));
    }

    /// The first half of planning: the command makes its request, the
    /// planner chooses the place of the region, and the router brings the
    /// inputs there. Hands out the names of the inputs and the place. Where no
    /// place is found or the inputs cannot be brought there, the board is
    /// left as it was.
    fn stage<C: Command>(&mut self, cmd: &C) -> (r: Result<(Vec<DropletId>, Placement), PlanError>)
        requires
            plannable(cmd, old(self)),
            !cmd.bypassed(old(self).droplets()),
        ensures
            final(self).grid == old(self).grid,
            final(self).wf(),
            match r {
                Ok((inputs, p)) => {
                    let ds0 = old(self).droplets();
                    let ds1 = cmd.requested(ds0);
                    let underway = dispatched(ds1, cmd.input_ids(), cmd.input_locations(ds0), p);
                    let h = old(self).grid.height() as int;
                    let w = old(self).grid.width() as int;
                    &&& inputs@ == cmd.input_ids()
                    &&& chosen(
                        &old(self).grid,
                        cmd.region(ds0),
                        cmd.anchor(ds0),
                        ds1,
                        cmd.input_ids(),
                    ) == Some(p)
                    &&& has_room(
                        &old(self).grid,
                        cmd.region(ds0),
                        ds1,
                        cmd.input_ids(),
                        p.offset.y as int,
                        p.offset.x as int,
                    )
                    &&& p.height == cmd.region(ds0).height
                    &&& p.width == cmd.region(ds0).width
                    &&& p.on_board(&old(self).grid)
                    &&& routed(underway, h, w) == Some(final(self).droplets())
                    &&& final(self).ticks() == old(self).ticks() + route_frames(underway, h, w)
                    &&& final(self).droplets() == delivered(
                        ds1,
                        cmd.input_ids(),
                        cmd.input_locations(ds0),
                        p,
                    )
                    &&& regrouped(ds0, ds1, cmd.input_ids())
                    &&& untouched(ds0, final(self).droplets(), cmd.input_ids())
                },
                Err(e) => {
                    &&& outcome(cmd, &old(self).grid, old(self).droplets()) == Err::<
                        (Seq<Droplet>, Seq<Seq<Droplet>>),
                        PlanError,
                    >(e)
                    &&& final(self).droplets() == old(self).droplets()
                    &&& final(self).ticks() == old(self).ticks()
                },
            },
    {
        proof {
            lemma_outcome(cmd, &self.grid, self.droplets());
        }
        let ghost ds0 = self.droplets();
        let ghost h = self.grid.height() as int;
        let ghost w = self.grid.width() as int;
        let saved = self.snapshot.droplets.clone();
        let n_frames = self.frames.len();
        let req = cmd.request(self);
        let inputs = cmd.input_droplets();
        let ghost ds1 = self.droplets();
        let ghost region = cmd.region(ds0);
        let ghost locs = cmd.input_locations(ds0);
        let placed = self.resolve(&req, &inputs, Ghost(region));
        let p = match placed {
            None => {
                proof {
                    assert(old(self).ticks().take(n_frames as int) =~= old(self).ticks());
                }
                self.restore(saved, n_frames);
                return Err(PlanError::PlaceError);
            },
            Some(p) => p,
        };
        proof {
            assert forall|k: int| 0 <= k < inputs@.len() implies has_droplet(
                ds1,
                #[trigger] inputs@[k],
            ) by {
                lemma_same_names(ds0, ds1, inputs@[k]);
            }
        }
        self.dispatch(&req.input_locations, &inputs, &p);
        let ghost underway = self.droplets();
        proof {
            Self::lemma_underway_is_wf(ds1, underway, h, w);
        }
        match self.route() {
            Err(e) => {
                proof {
                    assert(self.frames@.len() == self.ticks().len());
                    assert(old(self).frames@.len() == old(self).ticks().len());
                    assert(self.ticks().take(n_frames as int) =~= old(self).ticks());
                }
                self.restore(saved, n_frames);
                Err(e)
            },
            Ok(()) => {
                proof {
                    let ds2 = self.droplets();
                    assert forall|i: int| 0 <= i < ds2.len() implies ds2[i] == delivered(
                        ds1,
                        inputs@,
                        locs,
                        p,
                    )[i] by {
                        assert(ds0[i].destination is None);
                        assert(ds1[i].destination is None);
                    }
                    assert(ds2 =~= delivered(ds1, inputs@, locs, p));
                    Self::lemma_staging_untouched(ds0, ds1, ds2, inputs@);
                }
                Ok((inputs, p))
            },
        }
    }

    /// The request and the router touch no droplet but the inputs.
    proof fn lemma_staging_untouched(
        ds0: Seq<Droplet>,
        ds1: Seq<Droplet>,
        ds2: Seq<Droplet>,
        inputs: Seq<DropletId>,
    )
        requires
            regrouped(ds0, ds1, inputs),
            ds2.len() == ds1.len(),
            forall|i: int|
                0 <= i < ds1.len() ==> (#[trigger] ds2[i]).id == ds1[i].id && (!inputs.contains(
                    ds1[i].id,
                ) ==> ds2[i] == ds1[i]),
        ensures
            untouched(ds0, ds2, inputs),
    {
        assert forall|d: Droplet| !inputs.contains(d.id) implies (#[trigger] ds0.contains(d)
            <==> #[trigger] ds2.contains(d)) by {
            if ds0.contains(d) {
                let i = choose|i: int| 0 <= i < ds0.len() && ds0[i] == d;
                assert(ds1[i] == ds0[i]);
                assert(ds2[i] == d);
            }
            if ds2.contains(d) {
                let i = choose|i: int| 0 <= i < ds2.len() && ds2[i] == d;
                assert(ds1[i].id == ds0[i].id);
                assert(ds1[i] == ds0[i]);
                assert(ds0[i] == d);
            }
        }
    }

    /// Giving destinations to droplets leaves them fit for a tick.
    proof fn lemma_underway_is_wf(ds1: Seq<Droplet>, underway: Seq<Droplet>, h: int, w: int)
        requires
            underway.len() == ds1.len(),
            forall|i: int|
                0 <= i < ds1.len() ==> #[trigger] underway[i] == (Droplet {
                    destination: underway[i].destination,
                    ..ds1[i]
                }),
            ids_unique(ds1),
            collision_free(ds1),
            all_within(ds1, h, w),
        ensures
            ids_unique(underway),
            collision_free(underway),
            all_within(underway, h, w),
    {
        assert forall|i: int| 0 <= i < underway.len() implies (#[trigger] underway[i]).within(
            h,
            w,
        ) by {
            assert(ds1[i].within(h, w));
        }
        assert forall|a: int, b: int|
            #![trigger underway[a], underway[b]]
            0 <= a < underway.len() && 0 <= b < underway.len() && a != b implies underway[a].id
            != underway[b].id && !underway[a].collides(underway[b]) by {
            assert(ds1[a].id != ds1[b].id);
            assert(!ds1[a].collides(ds1[b]));
        }
    }

    /// The second half of planning: `pre_run` has its turn, the last tick of
    /// routing passes, and the command runs.
    fn perform<C: Command>(
        &mut self,
        cmd: &mut C,
        inputs: Vec<DropletId>,
        p: Placement,
        Ghost(before): Ghost<GridView>,
    )
        requires
            plannable(old(cmd), &before),
            !old(cmd).bypassed(before.droplets()),
            old(self).wf(),
            old(self).grid == before.grid,
            inputs@ == old(cmd).input_ids(),
            old(self).droplets() == delivered(
                old(cmd).requested(before.droplets()),
                old(cmd).input_ids(),
                old(cmd).input_locations(before.droplets()),
                p,
            ),
            regrouped(
                before.droplets(),
                old(cmd).requested(before.droplets()),
                old(cmd).input_ids(),
            ),
            has_room(
                &before.grid,
                old(cmd).region(before.droplets()),
                old(cmd).requested(before.droplets()),
                old(cmd).input_ids(),
                p.offset.y as int,
                p.offset.x as int,
            ),
            p.height == old(cmd).region(before.droplets()).height,
            p.width == old(cmd).region(before.droplets()).width,
            p.on_board(&before.grid),
        ensures
            final(self).settled(),
            final(self).grid == old(self).grid,
            final(self).droplets() == old(cmd).ran(
                old(cmd).pre_ran(old(self).droplets(), p.offset),
                p.offset,
            ),
            final(self).ticks() == old(self).ticks() + seq![
                old(cmd).pre_ran(old(self).droplets(), p.offset),
            ] + old(cmd).run_frames(old(cmd).pre_ran(old(self).droplets(), p.offset), p.offset),
            keeps_bounds(old(self).droplets(), final(self).droplets(), old(cmd).output_ids()),
            untouched(
                old(self).droplets(),
                final(self).droplets(),
                old(cmd).input_ids() + old(cmd).output_ids(),
            ),
            *final(cmd) == old(cmd).concluded(
                &old(self).grid,
                old(cmd).pre_ran(old(self).droplets(), p.offset),
                p,
            ),
            final(cmd).can_finalize(),
    {
        let ghost ds0 = before.droplets();
        let ghost ds2 = self.droplets();
        let ghost ds1 = cmd.requested(ds0);
        let ghost locs = cmd.input_locations(ds0);
        let ghost ticks2 = self.ticks();
        let mut owned = GridView::new(Grid::rectangle(0, 0));
        std::mem::swap(self, &mut owned);
        let mut subview = owned.subview(inputs, p);
        proof {
            let ds = subview.droplets();
            let h = before.grid.height() as int;
            let w = before.grid.width() as int;
            assert forall|k: int| 0 <= k < subview.ids@.len() implies has_droplet(
                ds,
                #[trigger] subview.ids@[k],
            ) by {
                lemma_delivered_names(ds1, inputs@, locs, p, subview.ids@[k]);
                lemma_same_names(ds0, ds1, subview.ids@[k]);
            }
            assert forall|i: int|
                0 <= i < ds.len() && !subview.owns((#[trigger] ds[i]).id)
                    implies subview.placement.clear_of(ds[i]) && ds[i].within(h, w) by {
                assert(ds1[i].id == ds0[i].id);
                assert(ds[i] == ds1[i]);
                assert(ds1[i] == ds0[i]);
                assert(ds0[i].destination is None && !ds0[i].pinned);
                assert(blocks(ds1[i], inputs@));
            }
            assert(subview.wf());
            cmd.lemma_staged(&before, &subview);
        }
        cmd.pre_run(&mut subview);
        let ghost ds3 = subview.droplets();
        let ghost ready = subview;
        subview.tick();
        proof {
            cmd.lemma_ticks_immaterial(&ready, &subview);
        }
        cmd.run(&mut subview);
        let mut back = subview.into_gridview();
        std::mem::swap(self, &mut back);
        proof {
            assert(ticks2.push(ds3) + old(cmd).run_frames(ds3, p.offset) =~= ticks2 + seq![ds3]
                + old(cmd).run_frames(ds3, p.offset));
            let ds4 = self.droplets();
            assert forall|n: int|
                bounded(ds2, n) && below(old(cmd).output_ids(), n) implies #[trigger] bounded(
                ds4,
                n,
            ) by {
                assert(bounded(ds3, n));
            }
            let ids = old(cmd).input_ids() + old(cmd).output_ids();
            lemma_untouched_twice(ds2, ds3, ds4, ids, ids, ids);
        }
    }

    /// Plans and runs one command: finds the place of its region, brings its
    /// input droplets there, and lets it change the droplets. Tells whether
    /// the command has run, so that it must be finalized; it has not if the
    /// board already showed what it would do. Where no plan can be made the
    /// board is left as it was.
    pub fn plan<C: Command>(&mut self, cmd: &mut C) -> (r: Result<bool, PlanError>)
        requires
            plannable(old(cmd), old(self)),
        ensures
            final(self).settled(),
            final(self).grid == old(self).grid,
            match outcome(old(cmd), &old(self).grid, old(self).droplets()) {
                Ok((ds, frames)) => {
                    &&& r == Ok::<bool, PlanError>(!old(cmd).bypassed(old(self).droplets()))
                    &&& final(self).droplets() == ds
                    &&& final(self).ticks() == old(self).ticks() + frames
                },
                Err(e) => {
                    &&& r == Err::<bool, PlanError>(e)
                    &&& final(self).droplets() == old(self).droplets()
                    &&& final(self).ticks() == old(self).ticks()
                },
            },
            keeps_bounds(old(self).droplets(), final(self).droplets(), old(cmd).output_ids()),
            untouched(
                old(self).droplets(),
                final(self).droplets(),
                old(cmd).input_ids() + old(cmd).output_ids(),
            ),
            r == Ok::<bool, PlanError>(true) ==> {
                &&& final(cmd).can_finalize()
                &&& *final(cmd) == old(cmd).concluded(
                    &old(self).grid,
                    staged(
                        old(cmd),
                        old(self).droplets(),
                        placed(old(cmd), &old(self).grid, old(self).droplets())->0,
                    ),
                    placed(old(cmd), &old(self).grid, old(self).droplets())->0,
                )
            },
            r != Ok::<bool, PlanError>(true) ==> *final(cmd) == *old(cmd),
    {
        let ghost before = *self;
        proof {
            lemma_outcome(cmd, &self.grid, self.droplets());
        }
        if cmd.bypass(self) {
            proof {
                assert(self.ticks() + Seq::<Seq<Droplet>>::empty() =~= self.ticks());
            }
            return Ok(false);
        }
        match self.stage(cmd) {
            Err(e) => Err(e),
            Ok((inputs, p)) => {
                let ghost ds2 = self.droplets();
                let ghost ds3 = cmd.pre_ran(ds2, p.offset);
                let ghost underway_frames = route_frames(
                    dispatched(
                        cmd.requested(before.droplets()),
                        cmd.input_ids(),
                        cmd.input_locations(before.droplets()),
                        p,
                    ),
                    before.grid.height() as int,
                    before.grid.width() as int,
                );
                self.perform(cmd, inputs, p, Ghost(before));
                proof {
                    let ds0 = before.droplets();
                    let ds1 = old(cmd).requested(ds0);
                    let ds4 = self.droplets();
                    assert forall|n: int|
                        bounded(ds0, n) && below(old(cmd).output_ids(), n)
                            implies #[trigger] bounded(ds4, n) by {
                        assert(below(Seq::<DropletId>::empty(), n));
                        assert(bounded(ds1, n));
                        assert forall|i: int| 0 <= i < ds2.len() implies (#[trigger] ds2[i]).id.id
                            < n && ds2[i].collision_group < n by {
                            assert(ds1[i].id.id < n);
                        }
                        assert(bounded(ds2, n));
                    }
                    let ids = old(cmd).input_ids() + old(cmd).output_ids();
                    assert forall|id: DropletId| old(cmd).input_ids().contains(id) implies ids.contains(
                        id,
                    ) by {
                        lemma_among(old(cmd).input_ids(), old(cmd).output_ids(), id);
                    }
                    lemma_untouched_twice(ds0, ds2, ds4, old(cmd).input_ids(), ids, ids);
                    assert(old(self).ticks() + underway_frames + seq![ds3] + old(cmd).run_frames(
                        ds3,
                        p.offset,
                    ) =~= old(self).ticks() + (underway_frames + seq![ds3] + old(cmd).run_frames(
                        ds3,
                        p.offset,
                    )));
                }
                Ok(true)
            },
        }
    }
}

} // verus!
