//! The droplets on the board as commands see and change them, tick by tick.

use vstd::prelude::*;

use super::droplet::{
    footprints_apart, rect_distance, Droplet, DropletId, DropletInfo, ProcessId,
};
use super::grid::{Electrode, Grid, Peripheral, MAX_DIM};
use super::location::Location;

verus! {

/// The largest height and the largest width of a board. It is half of what a
/// grid can have, so that the region of a command, which may be as large as
/// two droplets side by side, is a grid too.
pub const MAX_BOARD_DIM: usize = 0x4000;

/// Whether a droplet named `id` is among `ds`.
pub open spec fn has_droplet(ds: Seq<Droplet>, id: DropletId) -> bool {
    exists|i: int| 0 <= i < ds.len() && (#[trigger] ds[i]).id == id
}

/// The place of the droplet named `id` among `ds`.
pub open spec fn index_of(ds: Seq<Droplet>, id: DropletId) -> int {
    choose|i: int| 0 <= i < ds.len() && (#[trigger] ds[i]).id == id
}

/// No two droplets share a name.
pub open spec fn ids_unique(ds: Seq<Droplet>) -> bool {
    forall|i: int, j: int|
        #![trigger ds[i], ds[j]]
        0 <= i < ds.len() && 0 <= j < ds.len() && i != j ==> ds[i].id != ds[j].id
}

/// Droplets of different collision groups keep the minimum separation.
pub open spec fn collision_free(ds: Seq<Droplet>) -> bool {
    forall|i: int, j: int|
        #![trigger ds[i], ds[j]]
        0 <= i < ds.len() && 0 <= j < ds.len() && i != j ==> !ds[i].collides(ds[j])
}

/// Any two droplets keep the minimum separation, whatever their groups.
pub open spec fn all_apart(ds: Seq<Droplet>) -> bool {
    forall|i: int, j: int|
        #![trigger ds[i], ds[j]]
        0 <= i < ds.len() && 0 <= j < ds.len() && i != j ==> ds[i].apart(ds[j])
}

/// No two droplets share a collision group.
pub open spec fn groups_unique(ds: Seq<Droplet>) -> bool {
    forall|i: int, j: int|
        #![trigger ds[i], ds[j]]
        0 <= i < ds.len() && 0 <= j < ds.len() && i != j ==> ds[i].collision_group
            != ds[j].collision_group
}

/// Every footprint lies on a board of `h` rows and `w` columns.
pub open spec fn all_within(ds: Seq<Droplet>, h: int, w: int) -> bool {
    forall|i: int| 0 <= i < ds.len() ==> (#[trigger] ds[i]).within(h, w)
}

/// No droplet is on its way or pinned.
pub open spec fn all_idle(ds: Seq<Droplet>) -> bool {
    forall|i: int| 0 <= i < ds.len() ==> (#[trigger] ds[i]).destination is None && !ds[i].pinned
}

/// Whether a droplet is reported to the process `pid`; without a process
/// every droplet is.
pub open spec fn owned_by(d: Droplet, pid: Option<ProcessId>) -> bool {
    match pid {
        Some(p) => d.id.process_id == p,
        None => true,
    }
}

/// The reports on the droplets of `ds` that `pid` is told of, in the order of
/// `ds`.
pub open spec fn infos(ds: Seq<Droplet>, pid: Option<ProcessId>) -> Seq<DropletInfo>
    decreases ds.len(),
{
    if ds.len() == 0 {
        Seq::empty()
    } else if owned_by(ds.last(), pid) {
        infos(ds.drop_last(), pid).push(ds.last().info_spec())
    } else {
        infos(ds.drop_last(), pid)
    }
}

/// Where names are unique, the droplet named `id` is found at the one place
/// that holds it.
pub proof fn lemma_index_of(ds: Seq<Droplet>, id: DropletId, i: int)
    requires
        ids_unique(ds),
        0 <= i < ds.len(),
        ds[i].id == id,
    ensures
        has_droplet(ds, id),
        index_of(ds, id) == i,
{
    let j = index_of(ds, id);
    assert(0 <= j < ds.len() && ds[j].id == id);
    if j != i {
        assert(ds[i].id != ds[j].id);
    }
}

/// What stands at each place once the droplet at place `i` has left.
pub proof fn lemma_remove_index(ds: Seq<Droplet>, i: int)
    requires
        0 <= i < ds.len(),
    ensures
        ds.remove(i).len() == ds.len() - 1,
        forall|k: int| 0 <= k < i ==> #[trigger] ds.remove(i)[k] == ds[k],
        forall|k: int| i <= k < ds.len() - 1 ==> #[trigger] ds.remove(i)[k] == ds[k + 1],
{
}

/// Which names are present once a droplet has joined.
pub proof fn lemma_has_after_push(ds: Seq<Droplet>, d: Droplet, id: DropletId)
    ensures
        has_droplet(ds.push(d), id) <==> (has_droplet(ds, id) || d.id == id),
{
    let after = ds.push(d);
    if has_droplet(after, id) {
        let i = index_of(after, id);
        if i < ds.len() {
            assert(ds[i].id == id);
        }
    }
    if has_droplet(ds, id) {
        let i = index_of(ds, id);
        assert(after[i].id == id);
    }
    if d.id == id {
        assert(after[ds.len() as int].id == id);
    }
}

/// Which names are present once the droplet at place `i` has left.
pub proof fn lemma_has_after_remove(ds: Seq<Droplet>, i: int, id: DropletId)
    requires
        ids_unique(ds),
        0 <= i < ds.len(),
    ensures
        has_droplet(ds.remove(i), id) <==> (has_droplet(ds, id) && ds[i].id != id),
{
    lemma_remove_index(ds, i);
    let after = ds.remove(i);
    if has_droplet(after, id) {
        let k = index_of(after, id);
        if k < i {
            assert(ds[k].id == id);
            assert(ds[k].id != ds[i].id);
        } else {
            assert(ds[k + 1].id == id);
            assert(ds[k + 1].id != ds[i].id);
        }
    }
    if has_droplet(ds, id) && ds[i].id != id {
        let k = index_of(ds, id);
        if k < i {
            assert(after[k].id == id);
        } else {
            assert(after[k - 1].id == id);
        }
    }
}

/// Names stay unique when a droplet with a new name joins.
pub proof fn lemma_unique_after_push(ds: Seq<Droplet>, d: Droplet)
    requires
        ids_unique(ds),
        !has_droplet(ds, d.id),
    ensures
        ids_unique(ds.push(d)),
{
    let after = ds.push(d);
    assert forall|i: int, j: int|
        #![trigger after[i], after[j]]
        0 <= i < after.len() && 0 <= j < after.len() && i != j implies after[i].id
        != after[j].id by {
        if i < ds.len() && j < ds.len() {
            assert(ds[i].id != ds[j].id);
        } else if i < ds.len() {
            assert(ds[i].id != d.id);
        } else {
            assert(ds[j].id != d.id);
        }
    }
}

/// Names stay unique when a droplet leaves.
pub proof fn lemma_unique_after_remove(ds: Seq<Droplet>, i: int)
    requires
        ids_unique(ds),
        0 <= i < ds.len(),
    ensures
        ids_unique(ds.remove(i)),
{
    lemma_remove_index(ds, i);
    let after = ds.remove(i);
    assert forall|a: int, b: int|
        #![trigger after[a], after[b]]
        0 <= a < after.len() && 0 <= b < after.len() && a != b implies after[a].id
        != after[b].id by {
        let a0 = if a < i {
            a
        } else {
            a + 1
        };
        let b0 = if b < i {
            b
        } else {
            b + 1
        };
        assert(ds[a0].id != ds[b0].id);
    }
}

/// The droplets stay fit for a tick when one of them leaves.
pub proof fn lemma_remove_keeps_wf(ds: Seq<Droplet>, i: int, h: int, w: int)
    requires
        0 <= i < ds.len(),
        ids_unique(ds),
        collision_free(ds),
        all_within(ds, h, w),
    ensures
        ids_unique(ds.remove(i)),
        collision_free(ds.remove(i)),
        all_within(ds.remove(i), h, w),
{
    lemma_remove_index(ds, i);
    lemma_unique_after_remove(ds, i);
    let after = ds.remove(i);
    assert forall|a: int, b: int|
        #![trigger after[a], after[b]]
        0 <= a < after.len() && 0 <= b < after.len() && a != b implies !after[a].collides(
        after[b],
    ) by {
        let a0 = if a < i {
            a
        } else {
            a + 1
        };
        let b0 = if b < i {
            b
        } else {
            b + 1
        };
        assert(!ds[a0].collides(ds[b0]));
    }
    assert forall|a: int| 0 <= a < after.len() implies (#[trigger] after[a]).within(h, w) by {
        let a0 = if a < i {
            a
        } else {
            a + 1
        };
        assert(ds[a0].within(h, w));
    }
}

/// The droplets stay fit for a tick when one of them takes a new name.
pub proof fn lemma_rename_keeps_wf(ds: Seq<Droplet>, i: int, id: DropletId, h: int, w: int)
    requires
        0 <= i < ds.len(),
        ids_unique(ds),
        collision_free(ds),
        all_within(ds, h, w),
        !has_droplet(ds, id),
    ensures
        ids_unique(ds.remove(i).push(Droplet { id, ..ds[i] })),
        collision_free(ds.remove(i).push(Droplet { id, ..ds[i] })),
        all_within(ds.remove(i).push(Droplet { id, ..ds[i] }), h, w),
{
    lemma_remove_index(ds, i);
    lemma_remove_keeps_wf(ds, i, h, w);
    lemma_has_after_remove(ds, i, id);
    let rest = ds.remove(i);
    let renamed = Droplet { id, ..ds[i] };
    lemma_unique_after_push(rest, renamed);
    let after = rest.push(renamed);
    assert forall|a: int, b: int|
        #![trigger after[a], after[b]]
        0 <= a < after.len() && 0 <= b < after.len() && a != b implies !after[a].collides(
        after[b],
    ) by {
        let a0 = if a < i {
            a
        } else {
            a + 1
        };
        let b0 = if b < i {
            b
        } else {
            b + 1
        };
        if a < rest.len() && b < rest.len() {
            assert(!rest[a].collides(rest[b]));
        } else if a < rest.len() {
            assert(!ds[a0].collides(ds[i]));
        } else {
            assert(!ds[i].collides(ds[b0]));
        }
    }
    assert forall|a: int| 0 <= a < after.len() implies (#[trigger] after[a]).within(h, w) by {
        if a < rest.len() {
            assert(rest[a].within(h, w));
        } else {
            assert(ds[i].within(h, w));
        }
    }
}

/// Two rows of droplets that carry the same names place by place have the
/// same droplets by name.
pub proof fn lemma_same_names(a: Seq<Droplet>, b: Seq<Droplet>, id: DropletId)
    requires
        a.len() == b.len(),
        forall|i: int| 0 <= i < a.len() ==> (#[trigger] a[i]).id == b[i].id,
    ensures
        has_droplet(a, id) == has_droplet(b, id),
        ids_unique(a) == ids_unique(b),
        ids_unique(a) && has_droplet(a, id) ==> index_of(a, id) == index_of(b, id),
{
    if has_droplet(a, id) {
        let i = index_of(a, id);
        assert(a[i].id == b[i].id);
        assert(b[i].id == id);
    }
    if has_droplet(b, id) {
        let i = index_of(b, id);
        assert(a[i].id == b[i].id);
    }
    if ids_unique(a) {
        assert forall|i: int, j: int|
            #![trigger b[i], b[j]]
            0 <= i < b.len() && 0 <= j < b.len() && i != j implies b[i].id != b[j].id by {
            assert(a[i].id == b[i].id && a[j].id == b[j].id);
        }
        if has_droplet(a, id) {
            let i = index_of(a, id);
            assert(a[i].id == b[i].id);
            lemma_index_of(b, id, i);
        }
    }
    if ids_unique(b) {
        assert forall|i: int, j: int|
            #![trigger a[i], a[j]]
            0 <= i < a.len() && 0 <= j < a.len() && i != j implies a[i].id != a[j].id by {
            assert(a[i].id == b[i].id && a[j].id == b[j].id);
            assert(b[i].id != b[j].id);
        }
    }
}

/// No droplet is on its way or pinned, and each is in a collision group of
/// its own.
pub open spec fn calm(ds: Seq<Droplet>) -> bool {
    all_idle(ds) && groups_unique(ds)
}

/// The names `ids` are new to the droplets `ds`: none of them names a droplet,
/// no sequence number among them numbers a collision group, and no two of them
/// share a sequence number.
pub open spec fn fresh(ids: Seq<DropletId>, ds: Seq<Droplet>) -> bool {
    &&& forall|k: int| 0 <= k < ids.len() ==> !has_droplet(ds, #[trigger] ids[k])
    &&& forall|k: int, i: int|
        0 <= k < ids.len() && 0 <= i < ds.len() ==> (#[trigger] ids[k]).id != (
        #[trigger] ds[i]).collision_group
    &&& forall|k: int, m: int|
        0 <= k < ids.len() && 0 <= m < ids.len() && k != m ==> (#[trigger] ids[k]).id != (
        #[trigger] ids[m]).id
}

/// The droplets other than those named in `ids` are calm: none of them is on
/// its way or pinned, and no two of them share a collision group.
pub open spec fn calm_but(ds: Seq<Droplet>, ids: Seq<DropletId>) -> bool {
    &&& forall|i: int|
        0 <= i < ds.len() && !ids.contains((#[trigger] ds[i]).id) ==> ds[i].destination is None
            && !ds[i].pinned
    &&& forall|i: int, j: int|
        #![trigger ds[i], ds[j]]
        0 <= i < ds.len() && 0 <= j < ds.len() && i != j && !ids.contains(ds[i].id)
            && !ids.contains(ds[j].id) ==> ds[i].collision_group != ds[j].collision_group
}

/// Every sequence number and every collision group among the droplets lies
/// below `n`.
pub open spec fn bounded(ds: Seq<Droplet>, n: int) -> bool {
    forall|i: int| 0 <= i < ds.len() ==> (#[trigger] ds[i]).id.id < n && ds[i].collision_group < n
}

/// Every sequence number among the names lies below `n`.
pub open spec fn below(ids: Seq<DropletId>, n: int) -> bool {
    forall|k: int| 0 <= k < ids.len() ==> (#[trigger] ids[k]).id < n
}

/// The droplets `after` carry no sequence number and no collision group that
/// is not among the droplets `before` or among the names `outputs`: whatever
/// number lies above those of `before` and `outputs` lies above those of
/// `after`.
pub open spec fn keeps_bounds(
    before: Seq<Droplet>,
    after: Seq<Droplet>,
    outputs: Seq<DropletId>,
) -> bool {
    forall|n: int| bounded(before, n) && below(outputs, n) ==> #[trigger] bounded(after, n)
}

/// A droplet that leaves takes no number with it that the others need.
pub proof fn lemma_bounded_after_remove(ds: Seq<Droplet>, i: int, n: int)
    requires
        0 <= i < ds.len(),
        bounded(ds, n),
    ensures
        bounded(ds.remove(i), n),
{
    lemma_remove_index(ds, i);
    let after = ds.remove(i);
    assert forall|a: int| 0 <= a < after.len() implies (#[trigger] after[a]).id.id < n
        && after[a].collision_group < n by {
        let a0 = if a < i {
            a
        } else {
            a + 1
        };
        assert(ds[a0].id.id < n);
    }
}

/// The droplets whose names are not among `ids` are the same before and
/// after: each of them is on the board after exactly if it was before, and
/// nothing of it has changed.
pub open spec fn untouched(before: Seq<Droplet>, after: Seq<Droplet>, ids: Seq<DropletId>) -> bool {
    forall|d: Droplet|
        !ids.contains(d.id) ==> (#[trigger] before.contains(d) <==> #[trigger] after.contains(d))
}

/// A droplet that joins under one of the names `ids` leaves the others
/// untouched.
pub proof fn lemma_untouched_push(ds: Seq<Droplet>, x: Droplet, ids: Seq<DropletId>)
    requires
        ids.contains(x.id),
    ensures
        untouched(ds, ds.push(x), ids),
{
    let after = ds.push(x);
    assert forall|d: Droplet| !ids.contains(d.id) implies (#[trigger] ds.contains(d)
        <==> #[trigger] after.contains(d)) by {
        if ds.contains(d) {
            let i = choose|i: int| 0 <= i < ds.len() && ds[i] == d;
            assert(after[i] == d);
        }
        if after.contains(d) {
            let i = choose|i: int| 0 <= i < after.len() && after[i] == d;
            assert(i < ds.len());
            assert(ds[i] == d);
        }
    }
}

/// A droplet that leaves and is named in `ids` leaves the others untouched.
pub proof fn lemma_untouched_remove(ds: Seq<Droplet>, i: int, ids: Seq<DropletId>)
    requires
        0 <= i < ds.len(),
        ids.contains(ds[i].id),
    ensures
        untouched(ds, ds.remove(i), ids),
{
    lemma_remove_index(ds, i);
    let after = ds.remove(i);
    assert forall|d: Droplet| !ids.contains(d.id) implies (#[trigger] ds.contains(d)
        <==> #[trigger] after.contains(d)) by {
        if ds.contains(d) {
            let k = choose|k: int| 0 <= k < ds.len() && ds[k] == d;
            if k < i {
                assert(after[k] == d);
            } else {
                assert(after[k - 1] == d);
            }
        }
        if after.contains(d) {
            let k = choose|k: int| 0 <= k < after.len() && after[k] == d;
            if k < i {
                assert(ds[k] == d);
            } else {
                assert(ds[k + 1] == d);
            }
        }
    }
}

/// What is untouched by each of two changes is untouched by both, also where
/// more names are excepted.
pub proof fn lemma_untouched_twice(
    a: Seq<Droplet>,
    b: Seq<Droplet>,
    c: Seq<Droplet>,
    ids_ab: Seq<DropletId>,
    ids_bc: Seq<DropletId>,
    ids: Seq<DropletId>,
)
    requires
        untouched(a, b, ids_ab),
        untouched(b, c, ids_bc),
        forall|id: DropletId| ids_ab.contains(id) ==> ids.contains(id),
        forall|id: DropletId| ids_bc.contains(id) ==> ids.contains(id),
    ensures
        untouched(a, c, ids),
{
    assert forall|d: Droplet| !ids.contains(d.id) implies (#[trigger] a.contains(d)
        <==> #[trigger] c.contains(d)) by {
        assert(a.contains(d) <==> b.contains(d));
        assert(b.contains(d) <==> c.contains(d));
    }
}

/// The droplets stay calm when one of them leaves.
pub proof fn lemma_calm_after_remove(ds: Seq<Droplet>, i: int)
    requires
        0 <= i < ds.len(),
        calm(ds),
    ensures
        calm(ds.remove(i)),
{
    lemma_remove_index(ds, i);
    let after = ds.remove(i);
    assert forall|a: int, b: int|
        #![trigger after[a], after[b]]
        0 <= a < after.len() && 0 <= b < after.len() && a != b implies after[a].collision_group
        != after[b].collision_group by {
        let a0 = if a < i {
            a
        } else {
            a + 1
        };
        let b0 = if b < i {
            b
        } else {
            b + 1
        };
        assert(ds[a0].collision_group != ds[b0].collision_group);
    }
    assert forall|a: int| 0 <= a < after.len() implies (#[trigger] after[a]).destination is None
        && !after[a].pinned by {
        let a0 = if a < i {
            a
        } else {
            a + 1
        };
        assert(ds[a0].destination is None);
    }
}

/// The droplets stay calm when an idle droplet joins whose collision group
/// is new to them.
pub proof fn lemma_calm_after_push(ds: Seq<Droplet>, d: Droplet)
    requires
        calm(ds),
        d.destination is None,
        !d.pinned,
        forall|i: int| 0 <= i < ds.len() ==> (#[trigger] ds[i]).collision_group != d.collision_group,
    ensures
        calm(ds.push(d)),
{
    let after = ds.push(d);
    assert forall|a: int, b: int|
        #![trigger after[a], after[b]]
        0 <= a < after.len() && 0 <= b < after.len() && a != b implies after[a].collision_group
        != after[b].collision_group by {
        if a < ds.len() && b < ds.len() {
            assert(ds[a].collision_group != ds[b].collision_group);
        } else if a < ds.len() {
            assert(ds[a].collision_group != d.collision_group);
        } else {
            assert(ds[b].collision_group != d.collision_group);
        }
    }
    assert forall|a: int| 0 <= a < after.len() implies (#[trigger] after[a]).destination is None
        && !after[a].pinned by {
        if a < ds.len() {
            assert(ds[a].destination is None);
        }
    }
}

/// A footprint inside a region keeps the minimum separation from whatever the
/// region keeps it from.
pub proof fn lemma_inside_is_apart(p: Placement, loc: Location, dim: Location, d: Droplet)
    requires
        p.holds(loc, dim),
        p.clear_of(d),
        0 <= d.dimensions.y,
        0 <= d.dimensions.x,
    ensures
        footprints_apart(loc, dim, d.location, d.dimensions),
        footprints_apart(d.location, d.dimensions, loc, dim),
{
}

/// The number of channels that the hardware switches. An electrode whose pin
/// is no channel is never switched.
pub const N_CHANNELS: usize = 128;

/// Whether a droplet of the frame lies on the cell in row `y` and column `x`.
pub open spec fn lit(frame: Seq<Droplet>, y: int, x: int) -> bool {
    exists|i: int| 0 <= i < frame.len() && (#[trigger] frame[i]).covers(y, x)
}

/// Whether the channel `c` is on in the frame: a droplet lies on an electrode
/// of the grid whose pin is `c`.
pub open spec fn channel_on(grid: &Grid, frame: Seq<Droplet>, c: int) -> bool {
    exists|y: int, x: int|
        0 <= y < grid.height() && 0 <= x < grid.width() && lit(frame, y, x) && (
        #[trigger] grid.at(y, x)).pin == c
}

/// The level of each channel in the frame: 1 for a channel that is on, 0 for
/// one that is off.
pub open spec fn activation(grid: &Grid, frame: Seq<Droplet>) -> Seq<u8> {
    Seq::new(
        N_CHANNELS as nat,
        |c: int|
            if channel_on(grid, frame, c) {
                1u8
            } else {
                0u8
            },
    )
}

impl Grid {
    /// Whether a droplet of the frame lies on the cell in row `y` and column
    /// `x`.
    fn is_lit(frame: &Vec<Droplet>, y: usize, x: usize) -> (r: bool)
        ensures
            r == lit(frame@, y as int, x as int),
    {
        let mut i: usize = 0;
        while i < frame.len()
            invariant
                i <= frame@.len(),
                forall|k: int| 0 <= k < i ==> !(#[trigger] frame@[k]).covers(y as int, x as int),
            decreases frame@.len() - i,
        {
            if frame[i].covers_cell(y, x) {
                return true;
            }
            i = i + 1;
        }
        false
    }

    /// What the hardware has to switch for one tick: the level of each
    /// channel while the droplets stand as in `frame`.
    pub fn active_channels(&self, frame: &Vec<Droplet>) -> (levels: Vec<u8>)
        requires
            self.wf(),
        ensures
            levels@ == activation(self, frame@),
    {
        let h = self.max_height();
        let w = self.max_width();
        let mut levels: Vec<u8> = Vec::new();
        let mut c: usize = 0;
        while c < N_CHANNELS
            invariant
                c <= N_CHANNELS,
                levels@.len() == c,
                forall|k: int| 0 <= k < c ==> levels@[k] == 0u8,
            decreases N_CHANNELS - c,
        {
            levels.push(0u8);
            c = c + 1;
        }
        let mut y: usize = 0;
        while y < h
            invariant
                self.wf(),
                h == self.height(),
                w == self.width(),
                y <= h,
                levels@.len() == N_CHANNELS,
                forall|k: int|
                    0 <= k < N_CHANNELS ==> (#[trigger] levels@[k] == 1u8 <==> exists|
                        y2: int,
                        x2: int,
                    |
                        0 <= y2 < y && 0 <= x2 < w && lit(frame@, y2, x2) && (#[trigger] self.at(
                            y2,
                            x2,
                        )).pin == k),
                forall|k: int| 0 <= k < N_CHANNELS ==> levels@[k] == 1u8 || levels@[k] == 0u8,
            decreases h - y,
        {
            let mut x: usize = 0;
            while x < w
                invariant
                    self.wf(),
                    h == self.height(),
                    w == self.width(),
                    y < h,
                    x <= w,
                    levels@.len() == N_CHANNELS,
                    forall|k: int|
                        0 <= k < N_CHANNELS ==> (#[trigger] levels@[k] == 1u8 <==> (exists|
                            y2: int,
                            x2: int,
                        |
                            0 <= y2 < y && 0 <= x2 < w && lit(frame@, y2, x2) && (
                            #[trigger] self.at(y2, x2)).pin == k) || (exists|x2: int|
                            0 <= x2 < x && lit(frame@, y as int, x2) && (#[trigger] self.at(
                                y as int,
                                x2,
                            )).pin == k)),
                    forall|k: int| 0 <= k < N_CHANNELS ==> levels@[k] == 1u8 || levels@[k] == 0u8,
                decreases w - x,
            {
                assert(self.rows@[y as int]@.len() == w);
                let pin = self.rows[y][x].pin as usize;
                let on = Self::is_lit(frame, y, x);
                let ghost before = levels@;
                if on && pin < N_CHANNELS {
                    levels.set(pin, 1u8);
                }
                proof {
                    assert forall|k: int| 0 <= k < N_CHANNELS implies (#[trigger] levels@[k] == 1u8
                        <==> (exists|y2: int, x2: int|
                        0 <= y2 < y && 0 <= x2 < w && lit(frame@, y2, x2) && (#[trigger] self.at(
                            y2,
                            x2,
                        )).pin == k) || (exists|x2: int|
                        0 <= x2 < x + 1 && lit(frame@, y as int, x2) && (#[trigger] self.at(
                            y as int,
                            x2,
                        )).pin == k)) by {
                        if exists|x2: int|
                            0 <= x2 < x && lit(frame@, y as int, x2) && (#[trigger] self.at(
                                y as int,
                                x2,
                            )).pin == k {
                            let x2 = choose|x2: int|
                                0 <= x2 < x && lit(frame@, y as int, x2) && (#[trigger] self.at(
                                    y as int,
                                    x2,
                                )).pin == k;
                            assert(0 <= x2 < x + 1 && self.at(y as int, x2).pin == k);
                        }
                        if on && pin == k {
                            assert(self.at(y as int, x as int).pin == k);
                        }
                        if exists|x2: int|
                            0 <= x2 < x + 1 && lit(frame@, y as int, x2) && (#[trigger] self.at(
                                y as int,
                                x2,
                            )).pin == k {
                            let x2 = choose|x2: int|
                                0 <= x2 < x + 1 && lit(frame@, y as int, x2) && (#[trigger] self.at(
                                    y as int,
                                    x2,
                                )).pin == k;
                            if x2 < x {
                                assert(self.at(y as int, x2).pin == k);
                            }
                        }
                    }
                }
                x = x + 1;
            }
            proof {
                assert forall|k: int| 0 <= k < N_CHANNELS implies (#[trigger] levels@[k] == 1u8
                    <==> exists|y2: int, x2: int|
                    0 <= y2 < y + 1 && 0 <= x2 < w && lit(frame@, y2, x2) && (#[trigger] self.at(
                        y2,
                        x2,
                    )).pin == k) by {
                    if exists|y2: int, x2: int|
                        0 <= y2 < y && 0 <= x2 < w && lit(frame@, y2, x2) && (#[trigger] self.at(
                            y2,
                            x2,
                        )).pin == k {
                        let (y2, x2) = choose|y2: int, x2: int|
                            0 <= y2 < y && 0 <= x2 < w && lit(frame@, y2, x2) && (
                            #[trigger] self.at(y2, x2)).pin == k;
                        assert(0 <= y2 < y + 1 && self.at(y2, x2).pin == k);
                    }
                    if exists|x2: int|
                        0 <= x2 < w && lit(frame@, y as int, x2) && (#[trigger] self.at(
                            y as int,
                            x2,
                        )).pin == k {
                        let x2 = choose|x2: int|
                            0 <= x2 < w && lit(frame@, y as int, x2) && (#[trigger] self.at(
                                y as int,
                                x2,
                            )).pin == k;
                        assert(0 <= y < y + 1 && self.at(y as int, x2).pin == k);
                    }
                    if exists|y2: int, x2: int|
                        0 <= y2 < y + 1 && 0 <= x2 < w && lit(frame@, y2, x2) && (
                        #[trigger] self.at(y2, x2)).pin == k {
                        let (y2, x2) = choose|y2: int, x2: int|
                            0 <= y2 < y + 1 && 0 <= x2 < w && lit(frame@, y2, x2) && (
                            #[trigger] self.at(y2, x2)).pin == k;
                        if y2 < y {
                            assert(self.at(y2, x2).pin == k);
                        } else {
                            assert(self.at(y as int, x2).pin == k);
                        }
                    }
                }
            }
            y = y + 1;
        }
        proof {
            assert forall|k: int| 0 <= k < N_CHANNELS implies levels@[k] == activation(
                self,
                frame@,
            )[k] by {
                if channel_on(self, frame@, k) {
                    let (y2, x2) = choose|y2: int, x2: int|
                        0 <= y2 < self.height() && 0 <= x2 < self.width() && lit(frame@, y2, x2)
                            && (#[trigger] self.at(y2, x2)).pin == k;
                    assert(self.at(y2, x2).pin == k);
                }
            }
            assert(levels@ =~= activation(self, frame@));
        }
        levels
    }
}

/// The droplets on the board at one moment.
#[derive(Debug)]
pub struct Snapshot {
    pub droplets: Vec<Droplet>,
}

impl Snapshot {
    /// A snapshot without droplets.
    pub fn new() -> (s: Snapshot)
        ensures
            s.droplets@.len() == 0,
    {
        Snapshot { droplets: Vec::new() }
    }

    /// The place of the droplet named `id`, if there is one.
    pub fn position(&self, id: &DropletId) -> (r: Option<usize>)
        ensures
            match r {
                Some(i) => i < self.droplets@.len() && self.droplets@[i as int].id == *id && forall|
                    k: int,
                | 0 <= k < i ==> (#[trigger] self.droplets@[k]).id != *id,
                None => !has_droplet(self.droplets@, *id),
            },
    {
        let mut i: usize = 0;
        while i < self.droplets.len()
            invariant
                i <= self.droplets@.len(),
                forall|k: int| 0 <= k < i ==> (#[trigger] self.droplets@[k]).id != *id,
            decreases self.droplets@.len() - i,
        {
            if self.droplets[i].id == *id {
                return Some(i);
            }
            i = i + 1;
        }
        None
    }

    /// Whether a droplet is named `id`.
    pub fn contains_key(&self, id: &DropletId) -> (r: bool)
        ensures
            r == has_droplet(self.droplets@, *id),
    {
        self.position(id).is_some()
    }

    /// The droplet named `id`.
    pub fn get(&self, id: &DropletId) -> (d: &Droplet)
        requires
            has_droplet(self.droplets@, *id),
        ensures
            d.id == *id,
            exists|i: int| 0 <= i < self.droplets@.len() && self.droplets@[i] == *d,
            ids_unique(self.droplets@) ==> *d == self.droplets@[index_of(self.droplets@, *id)],
    {
        let p = self.position(id);
        let i = p.unwrap();
        proof {
            if ids_unique(self.droplets@) {
                lemma_index_of(self.droplets@, *id, i as int);
            }
        }
        &self.droplets[i]
    }

    /// The reports on the droplets of the process `pid_option`, or on all
    /// droplets where no process is given.
    pub fn droplet_info(&self, pid_option: Option<ProcessId>) -> (r: Vec<DropletInfo>)
        ensures
            r@ == infos(self.droplets@, pid_option),
    {
        let mut out: Vec<DropletInfo> = Vec::new();
        let mut i: usize = 0;
        while i < self.droplets.len()
            invariant
                i <= self.droplets@.len(),
                out@ == infos(self.droplets@.take(i as int), pid_option),
            decreases self.droplets@.len() - i,
        {
            let d = self.droplets[i];
            let owned = match pid_option {
                Some(p) => d.id.process_id == p,
                None => true,
            };
            proof {
                let next = self.droplets@.take(i + 1);
                assert(next.drop_last() == self.droplets@.take(i as int));
                assert(next.last() == d);
            }
            if owned {
                out.push(d.info());
            }
            i = i + 1;
        }
        proof {
            assert(self.droplets@.take(i as int) == self.droplets@);
        }
        out
    }

    /// The places of two droplets that must keep the minimum separation and
    /// do not, if there are any: the first such pair when the droplets are
    /// gone through in their order, each with all the others.
    pub fn get_collision(&self) -> (r: Option<(usize, usize)>)
        ensures
            match r {
                Some((i, j)) => {
                    &&& i < self.droplets@.len()
                    &&& j < self.droplets@.len()
                    &&& i != j
                    &&& self.droplets@[i as int].collides(self.droplets@[j as int])
                    &&& forall|a: int, b: int|
                        #![trigger self.droplets@[a], self.droplets@[b]]
                        0 <= a < self.droplets@.len() && 0 <= b < self.droplets@.len() && a != b
                            && (a < i || (a == i && b < j)) ==> !self.droplets@[a].collides(
                            self.droplets@[b],
                        )
                },
                None => collision_free(self.droplets@),
            },
    {
        let n = self.droplets.len();
        let mut i: usize = 0;
        while i < n
            invariant
                n == self.droplets@.len(),
                i <= n,
                forall|a: int, b: int|
                    #![trigger self.droplets@[a], self.droplets@[b]]
                    0 <= a < i && 0 <= b < n && a != b ==> !self.droplets@[a].collides(
                        self.droplets@[b],
                    ),
            decreases n - i,
        {
            let mut j: usize = 0;
            while j < n
                invariant
                    n == self.droplets@.len(),
                    i < n,
                    j <= n,
                    forall|a: int, b: int|
                        #![trigger self.droplets@[a], self.droplets@[b]]
                        0 <= a < i && 0 <= b < n && a != b ==> !self.droplets@[a].collides(
                            self.droplets@[b],
                        ),
                    forall|b: int|
                        #![trigger self.droplets@[b]]
                        0 <= b < j && i != b ==> !self.droplets@[i as int].collides(
                            self.droplets@[b],
                        ),
                decreases n - j,
            {
                if i != j && self.droplets[i].collision_group != self.droplets[j].collision_group
                    && self.droplets[i].collision_distance(&self.droplets[j]) <= 0 {
                    return Some((i, j));
                }
                j = j + 1;
            }
            i = i + 1;
        }
        None
    }
}

/// The board with the droplets on it, and the record of the ticks that have
/// been committed: one frame for each tick, which holds the droplets as they
/// stood at that tick.
#[derive(Debug)]
pub struct GridView {
    pub grid: Grid,
    pub snapshot: Snapshot,
    pub frames: Vec<Vec<Droplet>>,
}

impl GridView {
    /// The droplets on the board, in the order in which they are held.
    pub open spec fn droplets(&self) -> Seq<Droplet> {
        self.snapshot.droplets@
    }

    /// The frames of the committed ticks, oldest first.
    pub open spec fn ticks(&self) -> Seq<Seq<Droplet>> {
        self.frames@.map_values(|f: Vec<Droplet>| f@)
    }

    /// The grid is well formed and no larger than a board may be, and no two
    /// droplets share a name.
    pub open spec fn sound(&self) -> bool {
        &&& self.grid.wf()
        &&& self.grid.height() <= MAX_BOARD_DIM
        &&& self.grid.width() <= MAX_BOARD_DIM
        &&& ids_unique(self.droplets())
    }

    /// What a tick asks of the droplets: each lies on the board, and those of
    /// different collision groups keep the minimum separation.
    pub open spec fn wf(&self) -> bool {
        &&& self.sound()
        &&& all_within(self.droplets(), self.grid.height() as int, self.grid.width() as int)
        &&& collision_free(self.droplets())
    }

    /// The state between two commands: no droplet is on its way or pinned, and
    /// each is in a collision group of its own, so that any two droplets keep
    /// the minimum separation.
    pub open spec fn settled(&self) -> bool {
        self.wf() && calm(self.droplets())
    }

    /// Between two commands any two droplets keep the minimum separation.
    pub proof fn lemma_settled_apart(&self)
        requires
            self.settled(),
        ensures
            all_apart(self.droplets()),
    {
        let ds = self.droplets();
        assert forall|i: int, j: int|
            #![trigger ds[i], ds[j]]
            0 <= i < ds.len() && 0 <= j < ds.len() && i != j implies ds[i].apart(ds[j]) by {
            assert(!ds[i].collides(ds[j]));
        }
    }

    /// A board without droplets.
    pub fn new(grid: Grid) -> (gv: GridView)
        requires
            grid.wf(),
            grid.height() <= MAX_BOARD_DIM,
            grid.width() <= MAX_BOARD_DIM,
        ensures
            gv.settled(),
            gv.grid == grid,
            gv.droplets().len() == 0,
            gv.ticks().len() == 0,
    {
        GridView { grid, snapshot: Snapshot::new(), frames: Vec::new() }
    }

    /// The droplets as they lie now.
    pub fn snapshot(&self) -> (s: &Snapshot)
        ensures
            *s == self.snapshot,
    {
        &self.snapshot
    }

    /// Hands the board to a command: the view of the region at `placement`,
    /// in which the command owns the droplets named in `ids`.
    pub fn subview(self, ids: Vec<DropletId>, placement: Placement) -> (sv: GridSubView)
        ensures
            sv.backing_gridview == self,
            sv.ids == ids,
            sv.placement == placement,
    {
        GridSubView { backing_gridview: self, placement, ids }
    }

    /// Commits the droplets as they stand: one tick passes, and its frame
    /// joins the record.
    pub fn tick(&mut self)
        requires
            old(self).wf(),
        ensures
            final(self).grid == old(self).grid,
            final(self).snapshot == old(self).snapshot,
            final(self).ticks() == old(self).ticks().push(old(self).droplets()),
    {
        let frame = self.snapshot.droplets.clone();
        assert(frame@ == self.snapshot.droplets@);
        self.frames.push(frame);
        assert(self.ticks() =~= old(self).ticks().push(old(self).droplets()));
    }
}

/// Where the region of a command lies on the board: the cell in row `y` and
/// column `x` of the region, for `y` below `height` and `x` below `width`, is
/// the cell of the board that lies `offset` further.
#[derive(Clone, Copy, Debug)]
pub struct Placement {
    pub offset: Location,
    pub height: usize,
    pub width: usize,
}

impl Placement {
    /// Whether the region has a cell at the position `local`.
    pub open spec fn covers(self, local: Location) -> bool {
        0 <= local.y < self.height && 0 <= local.x < self.width
    }

    /// The cell of the board that stands for the position `local` of the
    /// region.
    pub open spec fn to_board(self, local: Location) -> Location {
        Location { y: (local.y + self.offset.y) as i32, x: (local.x + self.offset.x) as i32 }
    }

    /// The position in the region of the cell `loc` of the board.
    pub open spec fn to_region(self, loc: Location) -> Location {
        Location { y: (loc.y - self.offset.y) as i32, x: (loc.x - self.offset.x) as i32 }
    }

    /// The offset is a cell count of a board, and the region no larger than a
    /// grid may be.
    pub open spec fn wf(self) -> bool {
        &&& 0 <= self.offset.y <= MAX_BOARD_DIM
        &&& 0 <= self.offset.x <= MAX_BOARD_DIM
        &&& self.height <= MAX_DIM
        &&& self.width <= MAX_DIM
    }

    /// The whole region lies on the grid.
    pub open spec fn on_board(self, grid: &Grid) -> bool {
        &&& 0 <= self.offset.y
        &&& 0 <= self.offset.x
        &&& self.offset.y + self.height <= grid.height()
        &&& self.offset.x + self.width <= grid.width()
    }

    /// The footprint, given by its place on the board, has at least one cell
    /// and lies inside the region.
    pub open spec fn holds(self, loc: Location, dim: Location) -> bool {
        self.holds_at(loc.y as int, loc.x as int, dim)
    }

    /// The footprint `dim` with its top-left cell in row `y` and column `x` of
    /// the board has at least one cell and lies inside the region.
    pub open spec fn holds_at(self, y: int, x: int, dim: Location) -> bool {
        &&& 1 <= dim.y
        &&& 1 <= dim.x
        &&& self.offset.y <= y
        &&& self.offset.x <= x
        &&& y + dim.y <= self.offset.y + self.height
        &&& x + dim.x <= self.offset.x + self.width
    }

    /// Whether the cell `loc` of the board lies inside the region.
    pub open spec fn contains_cell(self, loc: Location) -> bool {
        &&& self.offset.y <= loc.y < self.offset.y + self.height
        &&& self.offset.x <= loc.x < self.offset.x + self.width
    }

    /// The droplet keeps the minimum separation from every cell of the region.
    pub open spec fn clear_of(self, d: Droplet) -> bool {
        self.height == 0 || self.width == 0 || rect_distance(
            self.offset.y as int,
            self.offset.x as int,
            self.height as int,
            self.width as int,
            d.location.y as int,
            d.location.x as int,
            d.dimensions.y as int,
            d.dimensions.x as int,
        ) > 0
    }

    /// The cell of the board for the position `local`, or nothing where the
    /// region has no such position.
    pub fn get(&self, local: &Location) -> (r: Option<Location>)
        requires
            self.wf(),
        ensures
            self.covers(*local) ==> r == Some(self.to_board(*local)),
            !self.covers(*local) ==> r is None,
    {
        if local.y < 0 || local.x < 0 {
            return None;
        }
        if local.y as usize >= self.height || local.x as usize >= self.width {
            return None;
        }
        Some(Location { y: local.y + self.offset.y, x: local.x + self.offset.x })
    }

    /// The position in the region of the cell `loc` of the board, or nothing
    /// where the cell lies outside the region.
    pub fn find(&self, loc: &Location) -> (r: Option<Location>)
        requires
            self.wf(),
        ensures
            self.contains_cell(*loc) ==> r == Some(self.to_region(*loc)),
            !self.contains_cell(*loc) ==> r is None,
    {
        let y: i64 = loc.y as i64 - self.offset.y as i64;
        let x: i64 = loc.x as i64 - self.offset.x as i64;
        if y < 0 || x < 0 || y >= self.height as i64 || x >= self.width as i64 {
            return None;
        }
        Some(Location { y: y as i32, x: x as i32 })
    }
}

/// The part of the board that one command works on. The command names
/// positions inside its region; the view maps them to cells of the board. It may touch only
/// the droplets that it owns: its inputs, and what it has inserted.
#[derive(Debug)]
pub struct GridSubView {
    pub backing_gridview: GridView,
    pub placement: Placement,
    pub ids: Vec<DropletId>,
}

impl GridSubView {
    /// The droplets on the whole board.
    pub open spec fn droplets(&self) -> Seq<Droplet> {
        self.backing_gridview.droplets()
    }

    /// Whether the command owns the droplet named `id`.
    pub open spec fn owns(&self, id: DropletId) -> bool {
        self.ids@.contains(id)
    }

    /// The region lies on the board; the command owns only droplets that
    /// exist; and the droplets that it does not own lie on the board, keep
    /// the minimum separation from the region, and do not collide with each
    /// other.
    pub open spec fn wf(&self) -> bool {
        &&& self.backing_gridview.sound()
        &&& self.placement.on_board(&self.backing_gridview.grid)
        &&& self.ids@.no_duplicates()
        &&& forall|k: int|
            0 <= k < self.ids@.len() ==> has_droplet(self.droplets(), #[trigger] self.ids@[k])
        &&& forall|i: int|
            0 <= i < self.droplets().len() && !self.owns((#[trigger] self.droplets()[i]).id)
                ==> self.placement.clear_of(self.droplets()[i]) && self.droplets()[i].within(
                self.backing_gridview.grid.height() as int,
                self.backing_gridview.grid.width() as int,
            )
        &&& forall|i: int, j: int|
            #![trigger self.droplets()[i], self.droplets()[j]]
            0 <= i < self.droplets().len() && 0 <= j < self.droplets().len() && i != j
                && !self.owns(self.droplets()[i].id) && !self.owns(self.droplets()[j].id)
                ==> !self.droplets()[i].collides(self.droplets()[j])
    }

    /// The peripheral of the electrode at the position `local` of the region.
    pub open spec fn peripheral_at(&self, local: Location) -> Option<Peripheral> {
        self.backing_gridview.grid.cell(self.placement.to_board(local)).peripheral
    }

    /// Every droplet that the command owns lies inside the region, and no two
    /// of them collide.
    pub open spec fn contained(&self) -> bool {
        &&& forall|i: int|
            0 <= i < self.droplets().len() && self.owns((#[trigger] self.droplets()[i]).id)
                ==> self.placement.holds(
                self.droplets()[i].location,
                self.droplets()[i].dimensions,
            )
        &&& forall|i: int, j: int|
            #![trigger self.droplets()[i], self.droplets()[j]]
            0 <= i < self.droplets().len() && 0 <= j < self.droplets().len() && i != j
                && self.owns(self.droplets()[i].id) && self.owns(self.droplets()[j].id)
                ==> !self.droplets()[i].collides(self.droplets()[j])
    }

    /// With its own droplets inside the region and free of collisions among
    /// themselves, the view can tick.
    pub proof fn lemma_contained_can_tick(&self)
        requires
            self.wf(),
            self.contained(),
        ensures
            self.backing_gridview.wf(),
    {
        let ds = self.droplets();
        let h = self.backing_gridview.grid.height() as int;
        let w = self.backing_gridview.grid.width() as int;
        assert forall|i: int| 0 <= i < ds.len() implies (#[trigger] ds[i]).within(h, w) by {
            if self.owns(ds[i].id) {
                assert(self.placement.holds(ds[i].location, ds[i].dimensions));
            }
        }
        assert forall|i: int, j: int|
            #![trigger ds[i], ds[j]]
            0 <= i < ds.len() && 0 <= j < ds.len() && i != j implies !ds[i].collides(ds[j]) by {
            if self.owns(ds[i].id) && !self.owns(ds[j].id) {
                lemma_inside_is_apart(self.placement, ds[i].location, ds[i].dimensions, ds[j]);
            } else if !self.owns(ds[i].id) && self.owns(ds[j].id) {
                lemma_inside_is_apart(self.placement, ds[j].location, ds[j].dimensions, ds[i]);
            }
        }
    }

    /// Hands the board back.
    pub fn into_gridview(self) -> (gv: GridView)
        ensures
            gv == self.backing_gridview,
    {
        self.backing_gridview
    }

    /// The place of `id` among the names that the command owns.
    fn own_position(&self, id: &DropletId) -> (r: Option<usize>)
        ensures
            match r {
                Some(k) => k < self.ids@.len() && self.ids@[k as int] == *id,
                None => !self.owns(*id),
            },
    {
        let mut k: usize = 0;
        while k < self.ids.len()
            invariant
                k <= self.ids@.len(),
                forall|m: int| 0 <= m < k ==> self.ids@[m] != *id,
            decreases self.ids@.len() - k,
        {
            if self.ids[k] == *id {
                return Some(k);
            }
            k = k + 1;
        }
        None
    }

    /// One tick passes.
    pub fn tick(&mut self)
        requires
            old(self).backing_gridview.wf(),
        ensures
            final(self).backing_gridview.grid == old(self).backing_gridview.grid,
            final(self).backing_gridview.snapshot == old(self).backing_gridview.snapshot,
            final(self).backing_gridview.ticks() == old(self).backing_gridview.ticks().push(
                old(self).droplets(),
            ),
            final(self).placement == old(self).placement,
            final(self).ids == old(self).ids,
    {
        self.backing_gridview.tick()
    }

    /// The electrode at the position `loc` of the region, or nothing where the
    /// region has no such position.
    pub fn get_electrode(&self, loc: &Location) -> (r: Option<&Electrode>)
        requires
            self.wf(),
        ensures
            self.placement.covers(*loc) ==> r == Some(
                &self.backing_gridview.grid.cell(self.placement.to_board(*loc)),
            ),
            !self.placement.covers(*loc) ==> r is None,
    {
        match self.placement.get(loc) {
            None => None,
            Some(actual) => self.backing_gridview.grid.get_cell(&actual),
        }
    }

    /// The droplet named `id`, as it stands on the board.
    pub fn get(&self, id: &DropletId) -> (d: &Droplet)
        requires
            self.wf(),
            self.owns(*id),
        ensures
            *d == self.droplets()[index_of(self.droplets(), *id)],
            d.id == *id,
    {
        self.backing_gridview.snapshot.get(id)
    }

    /// Puts a new droplet on the board. Its location is a position of the
    /// region; the command owns it from now on.
    pub fn insert(&mut self, droplet: Droplet)
        requires
            old(self).wf(),
            old(self).placement.covers(droplet.location),
            !has_droplet(old(self).droplets(), droplet.id),
        ensures
            final(self).wf(),
            final(self).droplets() == old(self).droplets().push(
                Droplet { location: old(self).placement.to_board(droplet.location), ..droplet },
            ),
            final(self).ids@ == old(self).ids@.push(droplet.id),
            final(self).placement == old(self).placement,
            final(self).backing_gridview.grid == old(self).backing_gridview.grid,
            final(self).backing_gridview.frames == old(self).backing_gridview.frames,
    {
        let mut droplet = droplet;
        let new_loc = self.placement.get(&droplet.location);
        droplet.location = new_loc.unwrap();
        proof {
            if self.owns(droplet.id) {
                let k = choose|k: int| 0 <= k < self.ids@.len() && self.ids@[k] == droplet.id;
                assert(has_droplet(self.droplets(), self.ids@[k]));
            }
            lemma_unique_after_push(self.droplets(), droplet);
        }
        self.ids.push(droplet.id);
        self.backing_gridview.snapshot.droplets.push(droplet);
        proof {
            let ds0 = old(self).droplets();
            let ds = self.droplets();
            assert forall|k: int| 0 <= k < self.ids@.len() implies has_droplet(
                ds,
                #[trigger] self.ids@[k],
            ) by {
                lemma_has_after_push(ds0, droplet, self.ids@[k]);
                if k < old(self).ids@.len() {
                    assert(has_droplet(ds0, old(self).ids@[k]));
                }
            }
            assert forall|i: int| 0 <= i < ds.len() && !self.owns((#[trigger] ds[i]).id) implies
                self.placement.clear_of(ds[i]) && ds[i].within(
                self.backing_gridview.grid.height() as int,
                self.backing_gridview.grid.width() as int,
            ) by {
                if i < ds0.len() {
                    assert(ds[i] == ds0[i]);
                    if old(self).owns(ds0[i].id) {
                        let k = choose|k: int|
                            0 <= k < old(self).ids@.len() && old(self).ids@[k] == ds0[i].id;
                        assert(self.ids@[k] == ds0[i].id);
                    }
                } else {
                    assert(self.ids@[old(self).ids@.len() as int] == droplet.id);
                }
            }
            assert forall|i: int, j: int|
                #![trigger ds[i], ds[j]]
                0 <= i < ds.len() && 0 <= j < ds.len() && i != j && !self.owns(ds[i].id)
                    && !self.owns(ds[j].id) implies !ds[i].collides(ds[j]) by {
                assert(self.ids@[old(self).ids@.len() as int] == droplet.id);
                if i < ds0.len() && j < ds0.len() {
                    if old(self).owns(ds0[i].id) {
                        let k = choose|k: int|
                            0 <= k < old(self).ids@.len() && old(self).ids@[k] == ds0[i].id;
                        assert(self.ids@[k] == ds0[i].id);
                    }
                    if old(self).owns(ds0[j].id) {
                        let k = choose|k: int|
                            0 <= k < old(self).ids@.len() && old(self).ids@[k] == ds0[j].id;
                        assert(self.ids@[k] == ds0[j].id);
                    }
                    assert(!ds0[i].collides(ds0[j]));
                }
            }
        }
    }

    /// Takes the droplet named `id` off the board and hands it out, its
    /// location given as a position of the region.
    pub fn remove(&mut self, id: &DropletId) -> (d: Droplet)
        requires
            old(self).wf(),
            old(self).owns(*id),
            old(self).placement.contains_cell(
                old(self).droplets()[index_of(old(self).droplets(), *id)].location,
            ),
        ensures
            final(self).wf(),
            d == (Droplet {
                location: old(self).placement.to_region(
                    old(self).droplets()[index_of(old(self).droplets(), *id)].location,
                ),
                ..old(self).droplets()[index_of(old(self).droplets(), *id)]
            }),
            d.id == *id,
            final(self).droplets() == old(self).droplets().remove(
                index_of(old(self).droplets(), *id),
            ),
            final(self).ids@ == old(self).ids@.remove(old(self).ids@.index_of(*id)),
            forall|other: DropletId|
                final(self).owns(other) <==> old(self).owns(other) && other != *id,
            final(self).placement == old(self).placement,
            final(self).backing_gridview.grid == old(self).backing_gridview.grid,
            final(self).backing_gridview.frames == old(self).backing_gridview.frames,
    {
        let k = self.own_position(id).unwrap();
        proof {
            assert(has_droplet(self.droplets(), self.ids@[k as int]));
            old(self).ids@.index_of_first_ensures(*id);
            assert(old(self).ids@.index_of(*id) == k);
        }
        let i = self.backing_gridview.snapshot.position(id).unwrap();
        proof {
            lemma_index_of(self.droplets(), *id, i as int);
            lemma_unique_after_remove(self.droplets(), i as int);
            lemma_remove_index(self.droplets(), i as int);
        }
        self.ids.remove(k);
        let mut droplet = self.backing_gridview.snapshot.droplets.remove(i);
        let unmapped = self.placement.find(&droplet.location);
        droplet.location = unmapped.unwrap();
        proof {
            let ds0 = old(self).droplets();
            let ds = self.droplets();
            let ids0 = old(self).ids@;
            let ids = self.ids@;
            assert forall|other: DropletId| self.owns(other) <==> old(self).owns(other) && other
                != *id by {
                if self.owns(other) {
                    let m = choose|m: int| 0 <= m < ids.len() && ids[m] == other;
                    if m < k {
                        assert(ids0[m] == other);
                    } else {
                        assert(ids0[m + 1] == other);
                    }
                }
                if old(self).owns(other) && other != *id {
                    let m = choose|m: int| 0 <= m < ids0.len() && ids0[m] == other;
                    if m < k {
                        assert(ids[m] == other);
                    } else {
                        assert(ids[m - 1] == other);
                    }
                }
            }
            assert(ids.no_duplicates()) by {
                assert forall|a: int, b: int|
                    0 <= a < ids.len() && 0 <= b < ids.len() && a != b implies ids[a] != ids[b] by {
                    let a0 = if a < k {
                        a
                    } else {
                        a + 1
                    };
                    let b0 = if b < k {
                        b
                    } else {
                        b + 1
                    };
                    assert(ids0[a0] != ids0[b0]);
                }
            }
            assert forall|m: int| 0 <= m < ids.len() implies has_droplet(ds, #[trigger] ids[m]) by {
                assert(self.owns(ids[m]));
                let m0 = choose|m0: int| 0 <= m0 < ids0.len() && ids0[m0] == ids[m];
                assert(has_droplet(ds0, ids0[m0]));
                lemma_has_after_remove(ds0, i as int, ids[m]);
            }
            assert forall|a: int| 0 <= a < ds.len() && !self.owns((#[trigger] ds[a]).id) implies
                self.placement.clear_of(ds[a]) && ds[a].within(
                self.backing_gridview.grid.height() as int,
                self.backing_gridview.grid.width() as int,
            ) by {
                let a0 = if a < i {
                    a
                } else {
                    a + 1
                };
                assert(ds[a] == ds0[a0]);
                assert(ds0[a0].id != ds0[i as int].id);
            }
            assert forall|a: int, b: int|
                #![trigger ds[a], ds[b]]
                0 <= a < ds.len() && 0 <= b < ds.len() && a != b && !self.owns(ds[a].id)
                    && !self.owns(ds[b].id) implies !ds[a].collides(ds[b]) by {
                let a0 = if a < i {
                    a
                } else {
                    a + 1
                };
                let b0 = if b < i {
                    b
                } else {
                    b + 1
                };
                assert(ds[a] == ds0[a0] && ds[b] == ds0[b0]);
                assert(ds0[a0].id != ds0[i as int].id);
                assert(ds0[b0].id != ds0[i as int].id);
                assert(!ds0[a0].collides(ds0[b0]));
            }
        }
        droplet
    }

    /// Moves the droplet named `id` by one cell: `dy` rows down and `dx`
    /// columns to the right, each of them -1, 0 or 1.
    fn shift(&mut self, id: &DropletId, dy: i32, dx: i32)
        requires
            old(self).wf(),
            old(self).owns(*id),
            -1 <= dy <= 1,
            -1 <= dx <= 1,
            old(self).can_shift(*id, dy as int, dx as int),
        ensures
            final(self).wf(),
            final(self).droplets() == old(self).shifted(*id, dy as int, dx as int),
            final(self).ids == old(self).ids,
            final(self).placement == old(self).placement,
            final(self).backing_gridview.grid == old(self).backing_gridview.grid,
            final(self).backing_gridview.frames == old(self).backing_gridview.frames,
    {
        proof {
            let k = choose|k: int| 0 <= k < self.ids@.len() && self.ids@[k] == *id;
            assert(has_droplet(self.droplets(), self.ids@[k]));
        }
        let i = self.backing_gridview.snapshot.position(id).unwrap();
        proof {
            lemma_index_of(self.droplets(), *id, i as int);
        }
        let mut droplet = self.backing_gridview.snapshot.droplets[i];
        assert(self.placement.wf());
        droplet.location = Location { y: droplet.location.y + dy, x: droplet.location.x + dx };
        self.backing_gridview.snapshot.droplets.set(i, droplet);
        proof {
            let ds0 = old(self).droplets();
            let ds = self.droplets();
            assert forall|a: int, b: int|
                #![trigger ds[a], ds[b]]
                0 <= a < ds.len() && 0 <= b < ds.len() && a != b implies ds[a].id != ds[b].id by {
                assert(ds[a].id == ds0[a].id && ds[b].id == ds0[b].id);
                assert(ds0[a].id != ds0[b].id);
            }
            assert forall|m: int| 0 <= m < self.ids@.len() implies has_droplet(
                ds,
                #[trigger] self.ids@[m],
            ) by {
                assert(has_droplet(ds0, old(self).ids@[m]));
                let a = index_of(ds0, self.ids@[m]);
                assert(ds[a].id == self.ids@[m]);
            }
            assert forall|a: int| 0 <= a < ds.len() && !self.owns((#[trigger] ds[a]).id) implies
                self.placement.clear_of(ds[a]) && ds[a].within(
                self.backing_gridview.grid.height() as int,
                self.backing_gridview.grid.width() as int,
            ) by {
                assert(ds[a].id == ds0[a].id);
                assert(a != i);
                assert(ds[a] == ds0[a]);
            }
            assert forall|a: int, b: int|
                #![trigger ds[a], ds[b]]
                0 <= a < ds.len() && 0 <= b < ds.len() && a != b && !self.owns(ds[a].id)
                    && !self.owns(ds[b].id) implies !ds[a].collides(ds[b]) by {
                assert(ds[a].id == ds0[a].id && ds[b].id == ds0[b].id);
                assert(ds[a] == ds0[a] && ds[b] == ds0[b]);
                assert(!ds0[a].collides(ds0[b]));
            }
        }
    }

    /// The footprint of the droplet named `id`, moved by `dy` rows and `dx`
    /// columns, lies inside the region.
    pub open spec fn can_shift(&self, id: DropletId, dy: int, dx: int) -> bool {
        let cur = self.droplets()[index_of(self.droplets(), id)];
        self.placement.holds_at(cur.location.y + dy, cur.location.x + dx, cur.dimensions)
    }

    /// The droplets once the droplet named `id` has moved by `dy` rows and
    /// `dx` columns.
    pub open spec fn shifted(&self, id: DropletId, dy: int, dx: int) -> Seq<Droplet> {
        let i = index_of(self.droplets(), id);
        let cur = self.droplets()[i];
        self.droplets().update(
            i,
            Droplet {
                location: Location {
                    y: (cur.location.y + dy) as i32,
                    x: (cur.location.x + dx) as i32,
                },
                ..cur
            },
        )
    }

    /// Moves the droplet named `id` one column to the left.
    pub fn move_west(&mut self, id: DropletId)
        requires
            old(self).wf(),
            old(self).owns(id),
            old(self).can_shift(id, 0, -1),
        ensures
            final(self).wf(),
            final(self).droplets() == old(self).shifted(id, 0, -1),
            final(self).ids == old(self).ids,
            final(self).placement == old(self).placement,
            final(self).backing_gridview.grid == old(self).backing_gridview.grid,
            final(self).backing_gridview.frames == old(self).backing_gridview.frames,
    {
        self.shift(&id, 0, -1)
    }

    /// Moves the droplet named `id` one column to the right.
    pub fn move_east(&mut self, id: DropletId)
        requires
            old(self).wf(),
            old(self).owns(id),
            old(self).can_shift(id, 0, 1),
        ensures
            final(self).wf(),
            final(self).droplets() == old(self).shifted(id, 0, 1),
            final(self).ids == old(self).ids,
            final(self).placement == old(self).placement,
            final(self).backing_gridview.grid == old(self).backing_gridview.grid,
            final(self).backing_gridview.frames == old(self).backing_gridview.frames,
    {
        self.shift(&id, 0, 1)
    }

    /// Moves the droplet named `id` one row up.
    pub fn move_north(&mut self, id: DropletId)
        requires
            old(self).wf(),
            old(self).owns(id),
            old(self).can_shift(id, -1, 0),
        ensures
            final(self).wf(),
            final(self).droplets() == old(self).shifted(id, -1, 0),
            final(self).ids == old(self).ids,
            final(self).placement == old(self).placement,
            final(self).backing_gridview.grid == old(self).backing_gridview.grid,
            final(self).backing_gridview.frames == old(self).backing_gridview.frames,
    {
        self.shift(&id, -1, 0)
    }

    /// Moves the droplet named `id` one row down.
    pub fn move_south(&mut self, id: DropletId)
        requires
            old(self).wf(),
            old(self).owns(id),
            old(self).can_shift(id, 1, 0),
        ensures
            final(self).wf(),
            final(self).droplets() == old(self).shifted(id, 1, 0),
            final(self).ids == old(self).ids,
            final(self).placement == old(self).placement,
            final(self).backing_gridview.grid == old(self).backing_gridview.grid,
            final(self).backing_gridview.frames == old(self).backing_gridview.frames,
    {
        self.shift(&id, 1, 0)
    }
}

} // verus!
