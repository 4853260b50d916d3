//! Routing: the droplets that have a destination are brought there one after
//! the other, each along a shortest way on which it keeps the minimum
//! separation from the droplets of other collision groups.

use vstd::arithmetic::div_mod::lemma_fundamental_div_mod_converse;
use vstd::prelude::*;
use vstd::set_lib::{lemma_int_range, lemma_len_subset, set_int_range};

use super::PlanError;
use crate::grid::droplet::{axis_gap_of, rect_distance, Droplet};
use crate::grid::gridview::{all_within, collision_free, ids_unique, GridView, MAX_BOARD_DIM};
use crate::grid::location::Location;

verus! {

/// Whether the droplet at place `i` may stand with its top-left cell in row
/// `y` and column `x` of a board of `h` rows and `w` columns: its footprint
/// has at least one cell, lies on the board, and keeps the minimum separation
/// from every droplet of another collision group.
pub open spec fn stands(ds: Seq<Droplet>, i: int, y: int, x: int, h: int, w: int) -> bool {
    &&& 1 <= ds[i].dimensions.y
    &&& 1 <= ds[i].dimensions.x
    &&& 0 <= y
    &&& 0 <= x
    &&& y + ds[i].dimensions.y <= h
    &&& x + ds[i].dimensions.x <= w
    &&& forall|j: int|
        0 <= j < ds.len() && j != i && (#[trigger] ds[j]).collision_group != ds[i].collision_group
            ==> rect_distance(
            y,
            x,
            ds[i].dimensions.y as int,
            ds[i].dimensions.x as int,
            ds[j].location.y as int,
            ds[j].location.x as int,
            ds[j].dimensions.y as int,
            ds[j].dimensions.x as int,
        ) > 0
}

/// Whether the droplet at place `i` can get from the cell in row `y` and
/// column `x` to the cell in row `ty` and column `tx` in at most `k` steps,
/// each to the next cell up, down, left or right, so that it may stand at
/// every cell on the way, the first and the last included.
pub open spec fn reaches(
    ds: Seq<Droplet>,
    i: int,
    y: int,
    x: int,
    ty: int,
    tx: int,
    k: nat,
    h: int,
    w: int,
) -> bool
    decreases k,
{
    &&& stands(ds, i, y, x, h, w)
    &&& (y == ty && x == tx) || (k > 0 && (reaches(ds, i, y - 1, x, ty, tx, (k - 1) as nat, h, w)
        || reaches(ds, i, y + 1, x, ty, tx, (k - 1) as nat, h, w) || reaches(
        ds,
        i,
        y,
        x - 1,
        ty,
        tx,
        (k - 1) as nat,
        h,
        w,
    ) || reaches(ds, i, y, x + 1, ty, tx, (k - 1) as nat, h, w)))
}

/// Whether `d` is the least number of steps in which the droplet at place
/// `i` can get from the cell in row `y` and column `x` to the cell in row
/// `ty` and column `tx`.
pub open spec fn takes(
    ds: Seq<Droplet>,
    i: int,
    y: int,
    x: int,
    ty: int,
    tx: int,
    d: nat,
    h: int,
    w: int,
) -> bool {
    reaches(ds, i, y, x, ty, tx, d, h, w) && (d > 0 ==> !reaches(
        ds,
        i,
        y,
        x,
        ty,
        tx,
        (d - 1) as nat,
        h,
        w,
    ))
}

/// What can be reached in some steps can be reached in more.
pub proof fn lemma_reaches_more(
    ds: Seq<Droplet>,
    i: int,
    y: int,
    x: int,
    ty: int,
    tx: int,
    k: nat,
    m: nat,
    h: int,
    w: int,
)
    requires
        reaches(ds, i, y, x, ty, tx, k, h, w),
        k <= m,
    ensures
        reaches(ds, i, y, x, ty, tx, m, h, w),
    decreases k,
{
    if !(y == ty && x == tx) {
        let k1 = (k - 1) as nat;
        let m1 = (m - 1) as nat;
        if reaches(ds, i, y - 1, x, ty, tx, k1, h, w) {
            lemma_reaches_more(ds, i, y - 1, x, ty, tx, k1, m1, h, w);
        } else if reaches(ds, i, y + 1, x, ty, tx, k1, h, w) {
            lemma_reaches_more(ds, i, y + 1, x, ty, tx, k1, m1, h, w);
        } else if reaches(ds, i, y, x - 1, ty, tx, k1, h, w) {
            lemma_reaches_more(ds, i, y, x - 1, ty, tx, k1, m1, h, w);
        } else {
            lemma_reaches_more(ds, i, y, x + 1, ty, tx, k1, m1, h, w);
        }
    }
}

/// Nothing can be reached where the droplet may not stand at the end.
pub proof fn lemma_reaches_stands(
    ds: Seq<Droplet>,
    i: int,
    y: int,
    x: int,
    ty: int,
    tx: int,
    k: nat,
    h: int,
    w: int,
)
    requires
        reaches(ds, i, y, x, ty, tx, k, h, w),
    ensures
        stands(ds, i, ty, tx, h, w),
    decreases k,
{
    if !(y == ty && x == tx) {
        let k1 = (k - 1) as nat;
        if reaches(ds, i, y - 1, x, ty, tx, k1, h, w) {
            lemma_reaches_stands(ds, i, y - 1, x, ty, tx, k1, h, w);
        } else if reaches(ds, i, y + 1, x, ty, tx, k1, h, w) {
            lemma_reaches_stands(ds, i, y + 1, x, ty, tx, k1, h, w);
        } else if reaches(ds, i, y, x - 1, ty, tx, k1, h, w) {
            lemma_reaches_stands(ds, i, y, x - 1, ty, tx, k1, h, w);
        } else {
            lemma_reaches_stands(ds, i, y, x + 1, ty, tx, k1, h, w);
        }
    }
}

/// Whether more steps than `k` bring the droplet to no cell from which `k`
/// steps do not bring it to the destination.
pub open spec fn settled_at(ds: Seq<Droplet>, i: int, ty: int, tx: int, k: nat, h: int, w: int) -> bool {
    forall|y: int, x: int|
        #[trigger] reaches(ds, i, y, x, ty, tx, k + 1, h, w) ==> reaches(
            ds,
            i,
            y,
            x,
            ty,
            tx,
            k,
            h,
            w,
        )
}

/// Once one more step reaches nothing new, no number of steps does.
pub proof fn lemma_settled(
    ds: Seq<Droplet>,
    i: int,
    y: int,
    x: int,
    ty: int,
    tx: int,
    k: nat,
    m: nat,
    h: int,
    w: int,
)
    requires
        settled_at(ds, i, ty, tx, k, h, w),
        reaches(ds, i, y, x, ty, tx, m, h, w),
    ensures
        reaches(ds, i, y, x, ty, tx, k, h, w),
    decreases m,
{
    if m <= k {
        lemma_reaches_more(ds, i, y, x, ty, tx, m, k, h, w);
    } else if y == ty && x == tx {
    } else {
        let m1 = (m - 1) as nat;
        // the neighbour that `m - 1` steps bring to the destination is
        // brought there by `k` steps already
        if reaches(ds, i, y - 1, x, ty, tx, m1, h, w) {
            lemma_settled(ds, i, y - 1, x, ty, tx, k, m1, h, w);
        } else if reaches(ds, i, y + 1, x, ty, tx, m1, h, w) {
            lemma_settled(ds, i, y + 1, x, ty, tx, k, m1, h, w);
        } else if reaches(ds, i, y, x - 1, ty, tx, m1, h, w) {
            lemma_settled(ds, i, y, x - 1, ty, tx, k, m1, h, w);
        } else {
            lemma_settled(ds, i, y, x + 1, ty, tx, k, m1, h, w);
        }
        assert(reaches(ds, i, y, x, ty, tx, k + 1, h, w));
    }
}

/// The label of a cell to which no number of steps has been given yet.
pub const UNSEEN: u32 = u32::MAX;

/// The label of the cell in row `y` and column `x`; a cell that is not on the
/// board is unseen.
pub open spec fn label_at(labels: Seq<Vec<u32>>, y: int, x: int) -> u32 {
    if 0 <= y < labels.len() && 0 <= x < labels[y]@.len() {
        labels[y]@[x]
    } else {
        UNSEEN
    }
}

/// Whether `labels` has a label for each cell of a board of `h` rows and `w`
/// columns.
pub open spec fn labels_fit(labels: Seq<Vec<u32>>, h: int, w: int) -> bool {
    &&& labels.len() == h
    &&& forall|y: int| 0 <= y < h ==> (#[trigger] labels[y])@.len() == w
}

/// What is known of the labels while the cells are gone through, row by row,
/// to find those from which `k + 1` steps bring the droplet to the
/// destination: a cell that is labelled takes as many steps as its label
/// says. A cell before the one in row `y0` and column `x0` is labelled if at
/// most `k + 1` steps bring the droplet to the destination from it; any other
/// cell, if at most `k` steps do.
#[verifier::opaque]
pub open spec fn swept(
    labels: Seq<Vec<u32>>,
    ds: Seq<Droplet>,
    i: int,
    ty: int,
    tx: int,
    k: nat,
    h: int,
    w: int,
    y0: int,
    x0: int,
) -> bool {
    &&& labels_fit(labels, h, w)
    &&& forall|y: int, x: int|
        0 <= y < h && 0 <= x < w ==> {
            let l = #[trigger] label_at(labels, y, x);
            let done = y < y0 || (y == y0 && x < x0);
            if l == UNSEEN {
                if done {
                    !reaches(ds, i, y, x, ty, tx, k + 1, h, w)
                } else {
                    !reaches(ds, i, y, x, ty, tx, k, h, w)
                }
            } else if l <= k {
                takes(ds, i, y, x, ty, tx, l as nat, h, w)
            } else {
                l == k + 1 && done && takes(ds, i, y, x, ty, tx, l as nat, h, w)
            }
        }
}

/// Whether the labels tell, for each cell of the board, the least number of
/// steps that bring the droplet at place `i` from there to the destination,
/// as far as at most `k` steps do.
pub open spec fn surveyed(
    labels: Seq<Vec<u32>>,
    ds: Seq<Droplet>,
    i: int,
    ty: int,
    tx: int,
    k: nat,
    h: int,
    w: int,
) -> bool {
    swept(labels, ds, i, ty, tx, k, h, w, 0, 0)
}

/// A cell from which `k` steps bring the droplet to the destination has a
/// label, which is at most `k`.
pub proof fn lemma_reached_is_labelled(
    labels: Seq<Vec<u32>>,
    ds: Seq<Droplet>,
    i: int,
    ty: int,
    tx: int,
    k: nat,
    h: int,
    w: int,
    y0: int,
    x0: int,
    y: int,
    x: int,
)
    requires
        swept(labels, ds, i, ty, tx, k, h, w, y0, x0),
        reaches(ds, i, y, x, ty, tx, k, h, w),
    ensures
        0 <= y < h,
        0 <= x < w,
        label_at(labels, y, x) <= k,
        takes(ds, i, y, x, ty, tx, label_at(labels, y, x) as nat, h, w),
{
    reveal(swept);
    assert(stands(ds, i, y, x, h, w));
    let l = label_at(labels, y, x);
    if l == UNSEEN {
        if y < y0 || (y == y0 && x < x0) {
            lemma_reaches_more(ds, i, y, x, ty, tx, k, k + 1, h, w);
        }
    }
}

/// What the next cell gets while the cells are gone through: if the droplet
/// may stand there and a neighbour is labelled `k`, the cell takes `k + 1`
/// steps; else `k + 1` steps do not bring the droplet to the destination
/// from it.
pub proof fn lemma_next_cell(
    labels: Seq<Vec<u32>>,
    ds: Seq<Droplet>,
    i: int,
    ty: int,
    tx: int,
    k: nat,
    h: int,
    w: int,
    y: int,
    x: int,
)
    requires
        swept(labels, ds, i, ty, tx, k, h, w, y, x),
        0 <= y < h,
        0 <= x < w,
        label_at(labels, y, x) == UNSEEN,
        label_at(labels, ty, tx) == 0,
        k + 1 < UNSEEN,
    ensures
        stands(ds, i, y, x, h, w) && (label_at(labels, y - 1, x) == k || label_at(
            labels,
            y + 1,
            x,
        ) == k || label_at(labels, y, x - 1) == k || label_at(labels, y, x + 1) == k) ==> takes(
            ds,
            i,
            y,
            x,
            ty,
            tx,
            k + 1,
            h,
            w,
        ),
        !(stands(ds, i, y, x, h, w) && (label_at(labels, y - 1, x) == k || label_at(
            labels,
            y + 1,
            x,
        ) == k || label_at(labels, y, x - 1) == k || label_at(labels, y, x + 1) == k))
            ==> !reaches(ds, i, y, x, ty, tx, k + 1, h, w),
{
    reveal(swept);
    let near = label_at(labels, y - 1, x) == k || label_at(labels, y + 1, x) == k || label_at(
        labels,
        y,
        x - 1,
    ) == k || label_at(labels, y, x + 1) == k;
    assert(!reaches(ds, i, y, x, ty, tx, k, h, w));
    if stands(ds, i, y, x, h, w) && near {
        if label_at(labels, y - 1, x) == k {
            assert(takes(ds, i, y - 1, x, ty, tx, k, h, w));
        } else if label_at(labels, y + 1, x) == k {
            assert(takes(ds, i, y + 1, x, ty, tx, k, h, w));
        } else if label_at(labels, y, x - 1) == k {
            assert(takes(ds, i, y, x - 1, ty, tx, k, h, w));
        } else {
            assert(takes(ds, i, y, x + 1, ty, tx, k, h, w));
        }
    } else if reaches(ds, i, y, x, ty, tx, k + 1, h, w) {
        // the neighbour that `k` steps bring to the destination takes fewer
        // than `k`, or its label would have been found
        let (ny, nx) = if reaches(ds, i, y - 1, x, ty, tx, k, h, w) {
            (y - 1, x)
        } else if reaches(ds, i, y + 1, x, ty, tx, k, h, w) {
            (y + 1, x)
        } else if reaches(ds, i, y, x - 1, ty, tx, k, h, w) {
            (y, x - 1)
        } else {
            (y, x + 1)
        };
        assert(reaches(ds, i, ny, nx, ty, tx, k, h, w));
        lemma_reached_is_labelled(labels, ds, i, ty, tx, k, h, w, y, x, ny, nx);
        let e = label_at(labels, ny, nx) as nat;
        assert(e < k);
        assert(reaches(ds, i, y, x, ty, tx, e + 1, h, w));
        lemma_reaches_more(ds, i, y, x, ty, tx, e + 1, k, h, w);
    }
}

impl GridView {
    /// Whether the droplet at place `i` may stand with its top-left cell in
    /// row `y` and column `x`.
    fn stands_at(&self, i: usize, y: usize, x: usize) -> (r: bool)
        requires
            self.sound(),
            i < self.droplets().len(),
            y <= MAX_BOARD_DIM,
            x <= MAX_BOARD_DIM,
        ensures
            r == stands(
                self.droplets(),
                i as int,
                y as int,
                x as int,
                self.grid.height() as int,
                self.grid.width() as int,
            ),
    {
        let d = self.snapshot.droplets[i];
        let gh = self.grid.max_height();
        let gw = self.grid.max_width();
        if d.dimensions.y < 1 || d.dimensions.x < 1 {
            return false;
        }
        if y as i64 + d.dimensions.y as i64 > gh as i64 || x as i64 + d.dimensions.x as i64
            > gw as i64 {
            return false;
        }
        let mut j: usize = 0;
        while j < self.snapshot.droplets.len()
            invariant
                j <= self.droplets().len(),
                i < self.droplets().len(),
                d == self.droplets()[i as int],
                y <= MAX_BOARD_DIM,
                x <= MAX_BOARD_DIM,
                forall|k: int|
                    0 <= k < j && k != i && (#[trigger] self.droplets()[k]).collision_group
                        != d.collision_group ==> rect_distance(
                        y as int,
                        x as int,
                        d.dimensions.y as int,
                        d.dimensions.x as int,
                        self.droplets()[k].location.y as int,
                        self.droplets()[k].location.x as int,
                        self.droplets()[k].dimensions.y as int,
                        self.droplets()[k].dimensions.x as int,
                    ) > 0,
            decreases self.droplets().len() - j,
        {
            let other = &self.snapshot.droplets[j];
            if j != i && other.collision_group != d.collision_group {
                let gy = axis_gap_of(
                    y as i64,
                    d.dimensions.y as i64,
                    other.location.y as i64,
                    other.dimensions.y as i64,
                );
                let gx = axis_gap_of(
                    x as i64,
                    d.dimensions.x as i64,
                    other.location.x as i64,
                    other.dimensions.x as i64,
                );
                if gy <= 0 && gx <= 0 {
                    return false;
                }
            }
            j = j + 1;
        }
        true
    }
}

/// Labels for a board of `h` rows and `w` columns, all of them unseen.
fn unseen(h: usize, w: usize) -> (labels: Vec<Vec<u32>>)
    ensures
        labels_fit(labels@, h as int, w as int),
        forall|y: int, x: int| 0 <= y < h && 0 <= x < w ==> label_at(labels@, y, x) == UNSEEN,
{
    let mut labels: Vec<Vec<u32>> = Vec::new();
    let mut y: usize = 0;
    while y < h
        invariant
            y <= h,
            labels@.len() == y,
            forall|a: int| 0 <= a < y ==> (#[trigger] labels@[a])@.len() == w,
            forall|a: int, b: int| 0 <= a < y && 0 <= b < w ==> labels@[a]@[b] == UNSEEN,
        decreases h - y,
    {
        let mut row: Vec<u32> = Vec::new();
        let mut x: usize = 0;
        while x < w
            invariant
                x <= w,
                row@.len() == x,
                forall|b: int| 0 <= b < x ==> row@[b] == UNSEEN,
            decreases w - x,
        {
            row.push(UNSEEN);
            x = x + 1;
        }
        labels.push(row);
        y = y + 1;
    }
    labels
}

/// Whether a neighbour of the cell in row `y` and column `x` is labelled `k`.
fn near(labels: &Vec<Vec<u32>>, y: usize, x: usize, k: u32) -> (r: bool)
    requires
        y < labels@.len(),
        x < labels@[y as int]@.len(),
        forall|a: int| 0 <= a < labels@.len() ==> (#[trigger] labels@[a])@.len() == labels@[0]@.len(),
        k != UNSEEN,
    ensures
        r == (label_at(labels@, y - 1, x as int) == k || label_at(labels@, y + 1, x as int) == k
            || label_at(labels@, y as int, x - 1) == k || label_at(labels@, y as int, x + 1) == k),
{
    let h = labels.len();
    let w = labels[y].len();
    (y > 0 && labels[y - 1][x] == k) || (y + 1 < h && labels[y + 1][x] == k) || (x > 0
        && labels[y][x - 1] == k) || (x + 1 < w && labels[y][x + 1] == k)
}

impl GridView {
    /// Goes through the cells, row by row, and labels with `k + 1` each cell
    /// from which `k + 1` steps, and no fewer, bring the droplet at place `i`
    /// to the destination. Tells whether any cell was labelled.
    fn sweep(&self, labels: &mut Vec<Vec<u32>>, i: usize, ty: usize, tx: usize, k: u32) -> (changed:
        bool)
        requires
            self.sound(),
            i < self.droplets().len(),
            surveyed(
                old(labels)@,
                self.droplets(),
                i as int,
                ty as int,
                tx as int,
                k as nat,
                self.grid.height() as int,
                self.grid.width() as int,
            ),
            labels_fit(
                old(labels)@,
                self.grid.height() as int,
                self.grid.width() as int,
            ),
            label_at(old(labels)@, ty as int, tx as int) == 0,
            k + 1 < UNSEEN,
        ensures
            labels_fit(
                final(labels)@,
                self.grid.height() as int,
                self.grid.width() as int,
            ),
            surveyed(
                final(labels)@,
                self.droplets(),
                i as int,
                ty as int,
                tx as int,
                (k + 1) as nat,
                self.grid.height() as int,
                self.grid.width() as int,
            ),
            label_at(final(labels)@, ty as int, tx as int) == 0,
            !changed ==> final(labels)@ == old(labels)@,
    {
        proof {
            reveal(swept);
        }
        let ghost ds = self.droplets();
        let ghost gh = self.grid.height() as int;
        let ghost gw = self.grid.width() as int;
        let h = self.grid.max_height();
        let w = self.grid.max_width();
        let mut changed = false;
        let mut y: usize = 0;
        while y < h
            invariant
                self.sound(),
                ds == self.droplets(),
                gh == self.grid.height(),
                gw == self.grid.width(),
                h == gh,
                w == gw,
                i < ds.len(),
                k + 1 < UNSEEN,
                y <= h,
                labels_fit(labels@, gh, gw),
                swept(labels@, ds, i as int, ty as int, tx as int, k as nat, gh, gw, y as int, 0),
                label_at(labels@, ty as int, tx as int) == 0,
                !changed ==> labels@ == old(labels)@,
            decreases h - y,
        {
            let mut x: usize = 0;
            while x < w
                invariant
                    self.sound(),
                    ds == self.droplets(),
                    gh == self.grid.height(),
                    gw == self.grid.width(),
                    h == gh,
                    w == gw,
                    i < ds.len(),
                    k + 1 < UNSEEN,
                    y < h,
                    x <= w,
                    labels_fit(labels@, gh, gw),
                    swept(
                        labels@,
                        ds,
                        i as int,
                        ty as int,
                        tx as int,
                        k as nat,
                        gh,
                        gw,
                        y as int,
                        x as int,
                    ),
                    label_at(labels@, ty as int, tx as int) == 0,
                    !changed ==> labels@ == old(labels)@,
                decreases w - x,
            {
                let ghost before = labels@;
                proof {
                    reveal(swept);
                }
                assert(label_at(before, y as int, x as int) == before[y as int]@[x as int]);
                if labels[y][x] == UNSEEN {
                    proof {
                        lemma_next_cell(
                            before,
                            ds,
                            i as int,
                            ty as int,
                            tx as int,
                            k as nat,
                            gh,
                            gw,
                            y as int,
                            x as int,
                        );
                    }
                    if near(labels, y, x, k) && self.stands_at(i, y, x) {
                        labels[y][x] = k + 1;
                        changed = true;
                        proof {
                            let after = labels@;
                            assert forall|a: int, b: int| 0 <= a < gh && 0 <= b < gw implies label_at(
                                after,
                                a,
                                b,
                            ) == (if a == y && b == x {
                                (k + 1) as u32
                            } else {
                                label_at(before, a, b)
                            }) by {}
                        }
                    }
                }
                proof {
                    let after = labels@;
                    assert forall|a: int, b: int| 0 <= a < gh && 0 <= b < gw implies ({
                        let l = #[trigger] label_at(after, a, b);
                        let done = a < y || (a == y && b < x + 1);
                        if l == UNSEEN {
                            if done {
                                !reaches(ds, i as int, a, b, ty as int, tx as int, (k + 1) as nat, gh, gw)
                            } else {
                                !reaches(ds, i as int, a, b, ty as int, tx as int, k as nat, gh, gw)
                            }
                        } else if l <= k {
                            takes(ds, i as int, a, b, ty as int, tx as int, l as nat, gh, gw)
                        } else {
                            l == k + 1 && done && takes(
                                ds,
                                i as int,
                                a,
                                b,
                                ty as int,
                                tx as int,
                                l as nat,
                                gh,
                                gw,
                            )
                        }
                    }) by {
                        let old_l = label_at(before, a, b);
                        if a == y && b == x {
                        } else {
                            assert(label_at(after, a, b) == old_l);
                        }
                    }
                }
                x = x + 1;
            }
            proof {
                reveal(swept);
            }
            y = y + 1;
        }
        proof {
            let after = labels@;
            assert forall|a: int, b: int| 0 <= a < gh && 0 <= b < gw implies ({
                let l = #[trigger] label_at(after, a, b);
                if l == UNSEEN {
                    !reaches(ds, i as int, a, b, ty as int, tx as int, (k + 1) as nat, gh, gw)
                } else {
                    l <= k + 1 && takes(ds, i as int, a, b, ty as int, tx as int, l as nat, gh, gw)
                }
            }) by {}
        }
        changed
    }
}

/// The number of steps within which a way is looked for on a board of `h`
/// rows and `w` columns: the number of its cells. Where there is a way at
/// all, there is one that takes no more.
pub open spec fn step_limit(h: int, w: int) -> nat {
    (h * w) as nat
}

/// Where no cell is labelled and the droplet may not stand at the
/// destination, no steps bring it there.
proof fn lemma_nothing_reaches(
    ds: Seq<Droplet>,
    i: int,
    y: int,
    x: int,
    ty: int,
    tx: int,
    k: nat,
    h: int,
    w: int,
)
    requires
        !stands(ds, i, ty, tx, h, w),
    ensures
        !reaches(ds, i, y, x, ty, tx, k, h, w),
{
    if reaches(ds, i, y, x, ty, tx, k, h, w) {
        lemma_reaches_stands(ds, i, y, x, ty, tx, k, h, w);
    }
}

/// Labels that one more sweep does not change are settled.
proof fn lemma_unchanged_is_settled(
    labels: Seq<Vec<u32>>,
    ds: Seq<Droplet>,
    i: int,
    ty: int,
    tx: int,
    k: nat,
    h: int,
    w: int,
)
    requires
        surveyed(labels, ds, i, ty, tx, k, h, w),
        surveyed(labels, ds, i, ty, tx, k + 1, h, w),
    ensures
        settled_at(ds, i, ty, tx, k, h, w),
{
    reveal(swept);
    assert forall|y: int, x: int| #[trigger]
        reaches(ds, i, y, x, ty, tx, k + 1, h, w) implies reaches(ds, i, y, x, ty, tx, k, h, w) by {
        assert(stands(ds, i, y, x, h, w));
        let l = label_at(labels, y, x);
        assert(l != UNSEEN);
        lemma_reaches_more(ds, i, y, x, ty, tx, l as nat, k, h, w);
    }
}

impl GridView {
    /// Labels each cell of the board with the least number of steps that
    /// bring the droplet at place `i` from there to the cell in row `ty` and
    /// column `tx`, beginning at that cell, until the cell in row `sy` and
    /// column `sx` is labelled or no cell is left to label. Hands out the
    /// labels and the number of steps up to which they are complete.
    fn survey(&self, i: usize, sy: usize, sx: usize, ty: usize, tx: usize) -> (r: (
        Vec<Vec<u32>>,
        u32,
    ))
        requires
            self.sound(),
            i < self.droplets().len(),
            sy < self.grid.height(),
            sx < self.grid.width(),
            ty < self.grid.height(),
            tx < self.grid.width(),
        ensures
            labels_fit(r.0@, self.grid.height() as int, self.grid.width() as int),
            surveyed(
                r.0@,
                self.droplets(),
                i as int,
                ty as int,
                tx as int,
                r.1 as nat,
                self.grid.height() as int,
                self.grid.width() as int,
            ),
            label_at(r.0@, sy as int, sx as int) != UNSEEN <==> reaches(
                self.droplets(),
                i as int,
                sy as int,
                sx as int,
                ty as int,
                tx as int,
                step_limit(self.grid.height() as int, self.grid.width() as int),
                self.grid.height() as int,
                self.grid.width() as int,
            ),
    {
        let ghost ds = self.droplets();
        let ghost gh = self.grid.height() as int;
        let ghost gw = self.grid.width() as int;
        let h = self.grid.max_height();
        let w = self.grid.max_width();
        assert(h * w <= 0x1000_0000) by (nonlinear_arith)
            requires
                h <= 0x4000,
                w <= 0x4000,
        ;
        let limit: u32 = (h * w) as u32;
        let mut labels = unseen(h, w);
        proof {
            reveal(swept);
        }
        if !self.stands_at(i, ty, tx) {
            proof {
                assert forall|y: int, x: int| 0 <= y < gh && 0 <= x < gw implies !reaches(
                    ds,
                    i as int,
                    y,
                    x,
                    ty as int,
                    tx as int,
                    0,
                    gh,
                    gw,
                ) by {
                    lemma_nothing_reaches(ds, i as int, y, x, ty as int, tx as int, 0, gh, gw);
                }
                lemma_nothing_reaches(
                    ds,
                    i as int,
                    sy as int,
                    sx as int,
                    ty as int,
                    tx as int,
                    step_limit(gh, gw),
                    gh,
                    gw,
                );
            }
            return (labels, 0);
        }
        let ghost blank = labels@;
        labels[ty][tx] = 0;
        proof {
            let marked = labels@;
            assert forall|y: int, x: int| 0 <= y < gh && 0 <= x < gw implies ({
                let l = #[trigger] label_at(marked, y, x);
                if l == UNSEEN {
                    !reaches(ds, i as int, y, x, ty as int, tx as int, 0, gh, gw)
                } else {
                    l <= 0 && takes(ds, i as int, y, x, ty as int, tx as int, l as nat, gh, gw)
                }
            }) by {
                if y == ty && x == tx {
                } else {
                    assert(label_at(marked, y, x) == label_at(blank, y, x));
                }
            }
        }
        let mut k: u32 = 0;
        let mut settled = false;
        while labels[sy][sx] == UNSEEN && k < limit && !settled
            invariant
                self.sound(),
                ds == self.droplets(),
                gh == self.grid.height(),
                gw == self.grid.width(),
                i < ds.len(),
                sy < gh,
                sx < gw,
                limit == step_limit(gh, gw),
                limit <= 0x1000_0000,
                k <= limit,
                labels_fit(labels@, gh, gw),
                surveyed(labels@, ds, i as int, ty as int, tx as int, k as nat, gh, gw),
                label_at(labels@, ty as int, tx as int) == 0,
                settled ==> !reaches(
                    ds,
                    i as int,
                    sy as int,
                    sx as int,
                    ty as int,
                    tx as int,
                    step_limit(gh, gw),
                    gh,
                    gw,
                ),
            decreases limit - k + (if settled {
                0int
            } else {
                1int
            }),
        {
            let ghost before = labels@;
            let changed = self.sweep(&mut labels, i, ty, tx, k);
            if !changed {
                settled = true;
                proof {
                    lemma_unchanged_is_settled(
                        before,
                        ds,
                        i as int,
                        ty as int,
                        tx as int,
                        k as nat,
                        gh,
                        gw,
                    );
                    if reaches(
                        ds,
                        i as int,
                        sy as int,
                        sx as int,
                        ty as int,
                        tx as int,
                        step_limit(gh, gw),
                        gh,
                        gw,
                    ) {
                        lemma_settled(
                            ds,
                            i as int,
                            sy as int,
                            sx as int,
                            ty as int,
                            tx as int,
                            k as nat,
                            step_limit(gh, gw),
                            gh,
                            gw,
                        );
                        reveal(swept);
                        assert(label_at(before, sy as int, sx as int) == UNSEEN);
                    }
                }
            }
            k = k + 1;
        }
        proof {
            reveal(swept);
            let l = label_at(labels@, sy as int, sx as int);
            if l != UNSEEN {
                lemma_reaches_more(
                    ds,
                    i as int,
                    sy as int,
                    sx as int,
                    ty as int,
                    tx as int,
                    l as nat,
                    step_limit(gh, gw),
                    gh,
                    gw,
                );
            }
        }
        (labels, k)
    }
}

/// The droplets once the droplet at place `i` stands with its top-left cell
/// in row `y` and column `x`.
pub open spec fn moved_to(ds: Seq<Droplet>, i: int, y: int, x: int) -> Seq<Droplet> {
    ds.update(i, Droplet { location: Location { y: y as i32, x: x as i32 }, ..ds[i] })
}

/// The cell to which the droplet at place `i` steps from the cell in row `y`
/// and column `x`, from which it takes `d` steps to the destination: the
/// first of the cells above, below, left and right from which it takes one
/// step less.
pub open spec fn downhill(
    ds: Seq<Droplet>,
    i: int,
    y: int,
    x: int,
    ty: int,
    tx: int,
    d: nat,
    h: int,
    w: int,
) -> (int, int) {
    if reaches(ds, i, y - 1, x, ty, tx, (d - 1) as nat, h, w) {
        (y - 1, x)
    } else if reaches(ds, i, y + 1, x, ty, tx, (d - 1) as nat, h, w) {
        (y + 1, x)
    } else if reaches(ds, i, y, x - 1, ty, tx, (d - 1) as nat, h, w) {
        (y, x - 1)
    } else {
        (y, x + 1)
    }
}

/// The droplets after each of the `d` steps that bring the droplet at place
/// `i` from the cell in row `y` and column `x` to the destination.
pub open spec fn walked(
    ds: Seq<Droplet>,
    i: int,
    y: int,
    x: int,
    ty: int,
    tx: int,
    d: nat,
    h: int,
    w: int,
) -> Seq<Seq<Droplet>>
    decreases d,
{
    if d == 0 {
        Seq::empty()
    } else {
        let (ny, nx) = downhill(ds, i, y, x, ty, tx, d, h, w);
        seq![moved_to(ds, i, ny, nx)] + walked(ds, i, ny, nx, ty, tx, (d - 1) as nat, h, w)
    }
}

/// The neighbours of a labelled cell that are labelled one less are those
/// from which one step less brings the droplet to the destination; and there
/// is such a neighbour.
pub proof fn lemma_downhill(
    labels: Seq<Vec<u32>>,
    ds: Seq<Droplet>,
    i: int,
    ty: int,
    tx: int,
    k: nat,
    h: int,
    w: int,
    y: int,
    x: int,
    ny: int,
    nx: int,
)
    requires
        surveyed(labels, ds, i, ty, tx, k, h, w),
        0 <= y < h,
        0 <= x < w,
        label_at(labels, y, x) != UNSEEN,
        label_at(labels, y, x) > 0,
        (ny == y - 1 && nx == x) || (ny == y + 1 && nx == x) || (ny == y && nx == x - 1) || (ny
            == y && nx == x + 1),
    ensures
        label_at(labels, ny, nx) == label_at(labels, y, x) - 1 <==> reaches(
            ds,
            i,
            ny,
            nx,
            ty,
            tx,
            (label_at(labels, y, x) - 1) as nat,
            h,
            w,
        ),
        reaches(ds, i, y - 1, x, ty, tx, (label_at(labels, y, x) - 1) as nat, h, w) || reaches(
            ds,
            i,
            y + 1,
            x,
            ty,
            tx,
            (label_at(labels, y, x) - 1) as nat,
            h,
            w,
        ) || reaches(ds, i, y, x - 1, ty, tx, (label_at(labels, y, x) - 1) as nat, h, w)
            || reaches(ds, i, y, x + 1, ty, tx, (label_at(labels, y, x) - 1) as nat, h, w),
{
    reveal(swept);
    let d = label_at(labels, y, x) as nat;
    let d1 = (d - 1) as nat;
    assert(takes(ds, i, y, x, ty, tx, d, h, w));
    if label_at(labels, ny, nx) == d1 {
        assert(0 <= ny < h && 0 <= nx < w);
        assert(takes(ds, i, ny, nx, ty, tx, d1, h, w));
    }
    if reaches(ds, i, ny, nx, ty, tx, d1, h, w) {
        lemma_reaches_more(ds, i, ny, nx, ty, tx, d1, k, h, w);
        lemma_reached_is_labelled(labels, ds, i, ty, tx, k, h, w, 0, 0, ny, nx);
        let e = label_at(labels, ny, nx) as nat;
        if e > d1 {
            lemma_reaches_more(ds, i, ny, nx, ty, tx, d1, (e - 1) as nat, h, w);
        }
        if e < d1 {
            assert(reaches(ds, i, y, x, ty, tx, e + 1, h, w));
            lemma_reaches_more(ds, i, y, x, ty, tx, e + 1, d1, h, w);
        }
    }
}

/// The cell to which the droplet steps from a labelled cell is the first of
/// the cells above, below, left and right that is labelled one less; the
/// droplet may stand there.
pub proof fn lemma_choice(
    labels: Seq<Vec<u32>>,
    ds: Seq<Droplet>,
    i: int,
    ty: int,
    tx: int,
    k: nat,
    h: int,
    w: int,
    y: int,
    x: int,
)
    requires
        surveyed(labels, ds, i, ty, tx, k, h, w),
        0 <= y < h,
        0 <= x < w,
        label_at(labels, y, x) != UNSEEN,
        label_at(labels, y, x) > 0,
    ensures
        ({
            let d = label_at(labels, y, x);
            let n = downhill(ds, i, y, x, ty, tx, d as nat, h, w);
            &&& n == (if label_at(labels, y - 1, x) == d - 1 {
                (y - 1, x)
            } else if label_at(labels, y + 1, x) == d - 1 {
                (y + 1, x)
            } else if label_at(labels, y, x - 1) == d - 1 {
                (y, x - 1)
            } else {
                (y, x + 1)
            })
            &&& 0 <= n.0 < h
            &&& 0 <= n.1 < w
            &&& label_at(labels, n.0, n.1) == d - 1
            &&& stands(ds, i, n.0, n.1, h, w)
            &&& takes(ds, i, n.0, n.1, ty, tx, (d - 1) as nat, h, w)
        }),
{
    reveal(swept);
    lemma_downhill(labels, ds, i, ty, tx, k, h, w, y, x, y - 1, x);
    lemma_downhill(labels, ds, i, ty, tx, k, h, w, y, x, y + 1, x);
    lemma_downhill(labels, ds, i, ty, tx, k, h, w, y, x, y, x - 1);
    lemma_downhill(labels, ds, i, ty, tx, k, h, w, y, x, y, x + 1);
}

/// The droplets after each step of a way are those after its first step and
/// those after each step of the rest of the way.
pub proof fn lemma_walk_on(
    ds: Seq<Droplet>,
    i: int,
    y: int,
    x: int,
    ty: int,
    tx: int,
    d: nat,
    h: int,
    w: int,
    done: Seq<Seq<Droplet>>,
    cur: Seq<Droplet>,
    next: Seq<Droplet>,
)
    requires
        0 <= i < ds.len(),
        d > 0,
        cur == moved_to(ds, i, y, x),
        next == moved_to(
            cur,
            i,
            downhill(ds, i, y, x, ty, tx, d, h, w).0,
            downhill(ds, i, y, x, ty, tx, d, h, w).1,
        ),
    ensures
        next == moved_to(
            ds,
            i,
            downhill(ds, i, y, x, ty, tx, d, h, w).0,
            downhill(ds, i, y, x, ty, tx, d, h, w).1,
        ),
        done.push(next) + walked(
            ds,
            i,
            downhill(ds, i, y, x, ty, tx, d, h, w).0,
            downhill(ds, i, y, x, ty, tx, d, h, w).1,
            ty,
            tx,
            (d - 1) as nat,
            h,
            w,
        ) == done + walked(ds, i, y, x, ty, tx, d, h, w),
{
    let (ny, nx) = downhill(ds, i, y, x, ty, tx, d, h, w);
    assert(next =~= moved_to(ds, i, ny, nx));
    let rest = walked(ds, i, ny, nx, ty, tx, (d - 1) as nat, h, w);
    assert(done.push(next) + rest =~= done + (seq![next] + rest));
}

/// The frames that have been shown once one more step has been taken.
pub proof fn lemma_frames_shown(
    before: Seq<Seq<Droplet>>,
    lead: Seq<Seq<Droplet>>,
    done: Seq<Seq<Droplet>>,
    cur: Seq<Droplet>,
    next: Seq<Droplet>,
    shown_then: Seq<Seq<Droplet>>,
    shown_now: Seq<Seq<Droplet>>,
)
    requires
        shown_then == before + (if done.len() == 0 {
            Seq::<Seq<Droplet>>::empty()
        } else {
            lead + done.drop_last()
        }),
        done.len() > 0 ==> done.last() == cur,
        lead.len() == 0 || (lead.len() == 1 && (done.len() == 0 ==> lead[0] == cur)),
        shown_now == (if lead.len() > 0 || done.len() > 0 {
            shown_then.push(cur)
        } else {
            shown_then
        }),
    ensures
        shown_now == before + (lead + done.push(next).drop_last()),
{
    if done.len() == 0 {
        assert(done.push(next).drop_last() =~= Seq::<Seq<Droplet>>::empty());
        if lead.len() > 0 {
            assert(lead =~= seq![cur]);
        }
        assert(shown_now =~= before + (lead + done.push(next).drop_last()));
    } else {
        assert(done.push(next).drop_last() =~= done);
        assert(done =~= done.drop_last().push(cur));
        assert(shown_now =~= before + (lead + done));
    }
}

/// A step to a cell at which the droplet may stand leaves the droplets fit
/// for a tick.
pub proof fn lemma_step_keeps_wf(ds: Seq<Droplet>, i: int, y: int, x: int, h: int, w: int)
    requires
        0 <= i < ds.len(),
        ids_unique(ds),
        collision_free(ds),
        all_within(ds, h, w),
        stands(ds, i, y, x, h, w),
        h <= MAX_BOARD_DIM,
        w <= MAX_BOARD_DIM,
    ensures
        ids_unique(moved_to(ds, i, y, x)),
        collision_free(moved_to(ds, i, y, x)),
        all_within(moved_to(ds, i, y, x), h, w),
{
    let next = moved_to(ds, i, y, x);
    assert forall|a: int, b: int|
        #![trigger next[a], next[b]]
        0 <= a < next.len() && 0 <= b < next.len() && a != b implies next[a].id != next[b].id
        && !next[a].collides(next[b]) by {
        assert(ds[a].id != ds[b].id);
        assert(!ds[a].collides(ds[b]));
        assert(!ds[b].collides(ds[a]));
        if a == i {
            assert(next[b] == ds[b]);
        } else if b == i {
            assert(next[a] == ds[a]);
        }
    }
    assert forall|a: int| 0 <= a < next.len() implies (#[trigger] next[a]).within(h, w) by {
        assert(ds[a].within(h, w));
    }
}

/// Where the droplet at place `i` may stand does not depend on where it
/// stands.
pub proof fn lemma_stands_wherever(
    ds: Seq<Droplet>,
    i: int,
    a: int,
    b: int,
    y: int,
    x: int,
    h: int,
    w: int,
)
    requires
        0 <= i < ds.len(),
    ensures
        stands(moved_to(ds, i, a, b), i, y, x, h, w) == stands(ds, i, y, x, h, w),
{
    let other = moved_to(ds, i, a, b);
    if stands(ds, i, y, x, h, w) {
        assert forall|j: int|
            0 <= j < other.len() && j != i && (#[trigger] other[j]).collision_group
                != other[i].collision_group implies rect_distance(
            y,
            x,
            other[i].dimensions.y as int,
            other[i].dimensions.x as int,
            other[j].location.y as int,
            other[j].location.x as int,
            other[j].dimensions.y as int,
            other[j].dimensions.x as int,
        ) > 0 by {
            assert(other[j] == ds[j]);
        }
    }
    if stands(other, i, y, x, h, w) {
        assert forall|j: int|
            0 <= j < ds.len() && j != i && (#[trigger] ds[j]).collision_group
                != ds[i].collision_group implies rect_distance(
            y,
            x,
            ds[i].dimensions.y as int,
            ds[i].dimensions.x as int,
            ds[j].location.y as int,
            ds[j].location.x as int,
            ds[j].dimensions.y as int,
            ds[j].dimensions.x as int,
        ) > 0 by {
            assert(other[j] == ds[j]);
        }
    }
}

impl GridView {
    /// Lets a tick pass if `tick_first` says so, and then puts the droplet at
    /// place `i` with its top-left cell in row `y` and column `x`.
    fn step(&mut self, i: usize, y: usize, x: usize, tick_first: bool)
        requires
            old(self).wf(),
            i < old(self).droplets().len(),
            stands(
                old(self).droplets(),
                i as int,
                y as int,
                x as int,
                old(self).grid.height() as int,
                old(self).grid.width() as int,
            ),
        ensures
            final(self).wf(),
            final(self).grid == old(self).grid,
            final(self).droplets() == moved_to(old(self).droplets(), i as int, y as int, x as int),
            final(self).ticks() == (if tick_first {
                old(self).ticks().push(old(self).droplets())
            } else {
                old(self).ticks()
            }),
    {
        if tick_first {
            self.tick();
        }
        proof {
            lemma_step_keeps_wf(
                self.droplets(),
                i as int,
                y as int,
                x as int,
                self.grid.height() as int,
                self.grid.width() as int,
            );
        }
        let mut droplet = self.snapshot.droplets[i];
        droplet.location = Location { y: y as i32, x: x as i32 };
        self.snapshot.droplets.set(i, droplet);
    }

    /// Brings the droplet at place `i` to the cell in row `ty` and column
    /// `tx`, one step per tick, along the labels: from each cell to the first
    /// of the cells above, below, left and right that is labelled one less.
    /// A tick passes before each step but the first, and before the first one
    /// too if `stepped` tells that a step was taken before.
    fn walk(
        &mut self,
        i: usize,
        labels: &Vec<Vec<u32>>,
        ty: usize,
        tx: usize,
        stepped: bool,
        Ghost(k): Ghost<nat>,
    )
        requires
            old(self).wf(),
            i < old(self).droplets().len(),
            0 <= old(self).droplets()[i as int].location.y < old(self).grid.height(),
            0 <= old(self).droplets()[i as int].location.x < old(self).grid.width(),
            labels_fit(
                labels@,
                old(self).grid.height() as int,
                old(self).grid.width() as int,
            ),
            surveyed(
                labels@,
                old(self).droplets(),
                i as int,
                ty as int,
                tx as int,
                k,
                old(self).grid.height() as int,
                old(self).grid.width() as int,
            ),
            label_at(
                labels@,
                old(self).droplets()[i as int].location.y as int,
                old(self).droplets()[i as int].location.x as int,
            ) != UNSEEN,
            ty < old(self).grid.height(),
            tx < old(self).grid.width(),
        ensures
            final(self).wf(),
            final(self).grid == old(self).grid,
            final(self).droplets() == moved_to(old(self).droplets(), i as int, ty as int, tx as int),
            ({
                let ds = old(self).droplets();
                let d = label_at(
                    labels@,
                    ds[i as int].location.y as int,
                    ds[i as int].location.x as int,
                );
                let path = walked(
                    ds,
                    i as int,
                    ds[i as int].location.y as int,
                    ds[i as int].location.x as int,
                    ty as int,
                    tx as int,
                    d as nat,
                    old(self).grid.height() as int,
                    old(self).grid.width() as int,
                );
                &&& takes(
                    ds,
                    i as int,
                    ds[i as int].location.y as int,
                    ds[i as int].location.x as int,
                    ty as int,
                    tx as int,
                    d as nat,
                    old(self).grid.height() as int,
                    old(self).grid.width() as int,
                )
                &&& path.len() == d
                &&& d > 0 ==> path.last() == final(self).droplets() && final(self).ticks() == old(
                    self,
                ).ticks() + (if stepped {
                    seq![ds]
                } else {
                    Seq::empty()
                }) + path.drop_last()
                &&& d == 0 ==> final(self).ticks() == old(self).ticks()
            }),
    {
        let ghost ds = self.droplets();
        let ghost gh = self.grid.height() as int;
        let ghost gw = self.grid.width() as int;
        let ghost lead = if stepped {
            seq![ds]
        } else {
            Seq::<Seq<Droplet>>::empty()
        };
        let h = self.grid.max_height();
        let w = self.grid.max_width();
        let start = self.snapshot.droplets[i].location;
        let mut y: usize = start.y as usize;
        let mut x: usize = start.x as usize;
        let ghost sy = y as int;
        let ghost sx = x as int;
        proof {
            reveal(swept);
        }
        let mut d: u32 = labels[y][x];
        let ghost d0 = d as nat;
        let mut stepped_now = stepped;
        let ghost mut done: Seq<Seq<Droplet>> = Seq::empty();
        proof {
            assert(label_at(labels@, sy, sx) == d);
            assert(moved_to(ds, i as int, sy, sx) =~= ds);
            assert(done + walked(ds, i as int, sy, sx, ty as int, tx as int, d0, gh, gw) =~= walked(
                ds,
                i as int,
                sy,
                sx,
                ty as int,
                tx as int,
                d0,
                gh,
                gw,
            ));
            assert(self.ticks() + Seq::<Seq<Droplet>>::empty() =~= self.ticks());
        }
        while d > 0
            invariant
                self.wf(),
                self.grid == old(self).grid,
                gh == self.grid.height(),
                gw == self.grid.width(),
                h == gh,
                w == gw,
                ds == old(self).droplets(),
                i < ds.len(),
                ty < gh,
                tx < gw,
                surveyed(labels@, ds, i as int, ty as int, tx as int, k, gh, gw),
                labels_fit(labels@, gh, gw),
                y < h,
                x < w,
                d != UNSEEN,
                label_at(labels@, y as int, x as int) == d,
                takes(ds, i as int, y as int, x as int, ty as int, tx as int, d as nat, gh, gw),
                self.droplets() == moved_to(ds, i as int, y as int, x as int),
                done + walked(ds, i as int, y as int, x as int, ty as int, tx as int, d as nat, gh, gw)
                    == walked(ds, i as int, sy, sx, ty as int, tx as int, d0, gh, gw),
                done.len() + d == d0,
                stepped_now == (stepped || done.len() > 0),
                done.len() > 0 ==> done.last() == self.droplets(),
                done.len() == 0 ==> self.droplets() == ds,
                lead == (if stepped {
                    seq![ds]
                } else {
                    Seq::<Seq<Droplet>>::empty()
                }),
                self.ticks() == old(self).ticks() + (if done.len() == 0 {
                    Seq::<Seq<Droplet>>::empty()
                } else {
                    lead + done.drop_last()
                }),
            decreases d,
        {
            let ghost cur = self.droplets();
            let ghost shown = self.ticks();
            proof {
                lemma_choice(
                    labels@,
                    ds,
                    i as int,
                    ty as int,
                    tx as int,
                    k,
                    gh,
                    gw,
                    y as int,
                    x as int,
                );
            }
            let (ny, nx) = if y > 0 && labels[y - 1][x] == d - 1 {
                (y - 1, x)
            } else if y + 1 < h && labels[y + 1][x] == d - 1 {
                (y + 1, x)
            } else if x > 0 && labels[y][x - 1] == d - 1 {
                (y, x - 1)
            } else {
                (y, x + 1)
            };
            proof {
                lemma_stands_wherever(
                    ds,
                    i as int,
                    y as int,
                    x as int,
                    ny as int,
                    nx as int,
                    gh,
                    gw,
                );
            }
            self.step(i, ny, nx, stepped_now);
            proof {
                let next = self.droplets();
                lemma_walk_on(
                    ds,
                    i as int,
                    y as int,
                    x as int,
                    ty as int,
                    tx as int,
                    d as nat,
                    gh,
                    gw,
                    done,
                    cur,
                    next,
                );
                lemma_frames_shown(
                    old(self).ticks(),
                    lead,
                    done,
                    cur,
                    next,
                    shown,
                    self.ticks(),
                );
                done = done.push(next);
            }
            d = d - 1;
            y = ny;
            x = nx;
            stepped_now = true;
        }
        proof {
            assert(takes(ds, i as int, y as int, x as int, ty as int, tx as int, 0, gh, gw));
            assert(y == ty && x == tx);
            assert(done =~= walked(ds, i as int, sy, sx, ty as int, tx as int, d0, gh, gw));
            if d0 > 0 {
                assert(self.ticks() =~= old(self).ticks() + lead + done.drop_last());
            } else {
                assert(self.ticks() =~= old(self).ticks());
            }
        }
    }
}

/// The cells of the board, numbered row by row, from which at most `k` steps
/// bring the droplet at place `i` to the destination.
pub open spec fn cells_within(
    ds: Seq<Droplet>,
    i: int,
    ty: int,
    tx: int,
    k: nat,
    h: int,
    w: int,
) -> Set<int> {
    Set::new(|c: int| 0 <= c < h * w && reaches(ds, i, c / w, c % w, ty, tx, k, h, w))
}

/// The number of a cell tells its row and its column.
proof fn lemma_cell_number(y: int, x: int, h: int, w: int)
    requires
        0 <= y < h,
        0 <= x < w,
    ensures
        0 <= y * w + x < h * w,
        (y * w + x) / w == y,
        (y * w + x) % w == x,
{
    lemma_fundamental_div_mod_converse(y * w + x, w, y, x);
    assert(0 <= y * w + x < h * w) by (nonlinear_arith)
        requires
            0 <= y < h,
            0 <= x < w,
    ;
}

/// As long as each further step reaches a cell that fewer steps do not, the
/// cells within `k` steps are more than `k`.
proof fn lemma_cells_grow(ds: Seq<Droplet>, i: int, ty: int, tx: int, k: nat, h: int, w: int)
    requires
        0 < h,
        0 < w,
    ensures
        cells_within(ds, i, ty, tx, k, h, w).finite(),
        cells_within(ds, i, ty, tx, k, h, w).len() <= h * w,
        (exists|j: nat| j <= k && settled_at(ds, i, ty, tx, j, h, w)) || cells_within(
            ds,
            i,
            ty,
            tx,
            k,
            h,
            w,
        ).len() > k,
    decreases k,
{
    let cells = cells_within(ds, i, ty, tx, k, h, w);
    assert(0 <= h * w) by (nonlinear_arith)
        requires
            0 < h,
            0 < w,
    ;
    lemma_int_range(0, h * w);
    assert(cells.subset_of(set_int_range(0, h * w)));
    lemma_len_subset(cells, set_int_range(0, h * w));
    if k == 0 {
        if stands(ds, i, ty, tx, h, w) {
            lemma_cell_number(ty, tx, h, w);
            let c = ty * w + tx;
            assert(reaches(ds, i, ty, tx, ty, tx, 0, h, w));
            assert(cells.contains(c));
            assert(cells.len() == cells.remove(c).len() + 1);
        } else {
            assert forall|y: int, x: int| #[trigger]
                reaches(ds, i, y, x, ty, tx, 1, h, w) implies reaches(
                ds,
                i,
                y,
                x,
                ty,
                tx,
                0,
                h,
                w,
            ) by {
                lemma_reaches_stands(ds, i, y, x, ty, tx, 1, h, w);
            }
            assert(settled_at(ds, i, ty, tx, 0, h, w));
        }
    } else {
        let k1 = (k - 1) as nat;
        lemma_cells_grow(ds, i, ty, tx, k1, h, w);
        if exists|j: nat| j <= k1 && settled_at(ds, i, ty, tx, j, h, w) {
            let j = choose|j: nat| j <= k1 && settled_at(ds, i, ty, tx, j, h, w);
            assert(j <= k && settled_at(ds, i, ty, tx, j, h, w));
        } else {
            // a cell that `k` steps reach and fewer do not
            assert(!settled_at(ds, i, ty, tx, k1, h, w));
            let (y, x) = choose|y: int, x: int|
                reaches(ds, i, y, x, ty, tx, k1 + 1, h, w) && !reaches(
                    ds,
                    i,
                    y,
                    x,
                    ty,
                    tx,
                    k1,
                    h,
                    w,
                );
            assert(stands(ds, i, y, x, h, w));
            lemma_cell_number(y, x, h, w);
            let c = y * w + x;
            let before = cells_within(ds, i, ty, tx, k1, h, w);
            assert(cells.contains(c));
            assert(!before.contains(c));
            assert forall|e: int| before.contains(e) implies cells.remove(c).contains(e) by {
                lemma_reaches_more(ds, i, e / w, e % w, ty, tx, k1, k, h, w);
            }
            assert(before.subset_of(cells.remove(c)));
            lemma_len_subset(before, cells.remove(c));
            assert(cells.len() == cells.remove(c).len() + 1);
        }
    }
}

/// A droplet that can get to a cell at all can get there in no more steps
/// than the board has cells.
pub proof fn lemma_way_is_short(
    ds: Seq<Droplet>,
    i: int,
    y: int,
    x: int,
    ty: int,
    tx: int,
    m: nat,
    h: int,
    w: int,
)
    requires
        reaches(ds, i, y, x, ty, tx, m, h, w),
    ensures
        reaches(ds, i, y, x, ty, tx, step_limit(h, w), h, w),
{
    assert(stands(ds, i, y, x, h, w));
    let n = step_limit(h, w);
    assert(n == h * w) by (nonlinear_arith)
        requires
            0 < h,
            0 < w,
            n == (h * w) as nat,
    ;
    lemma_cells_grow(ds, i, ty, tx, n, h, w);
    let j = choose|j: nat| j <= n && settled_at(ds, i, ty, tx, j, h, w);
    lemma_settled(ds, i, y, x, ty, tx, j, m, h, w);
    lemma_reaches_more(ds, i, y, x, ty, tx, j, n, h, w);
}

/// Whether the droplet has a destination at which it does not stand yet.
pub open spec fn to_go(d: Droplet) -> bool {
    d.destination is Some && d.destination->0 != d.location
}

/// Whether the router can bring the droplet at place `i` to its destination:
/// the droplet is not pinned, and there is a way from where it stands to the
/// destination along which it may stand at every cell, while the other
/// droplets stay where they are. The limit on the steps leaves no way out.
pub open spec fn has_way(ds: Seq<Droplet>, i: int, h: int, w: int) -> bool {
    !ds[i].pinned && reaches(
        ds,
        i,
        ds[i].location.y as int,
        ds[i].location.x as int,
        ds[i].destination->0.y as int,
        ds[i].destination->0.x as int,
        step_limit(h, w),
        h,
        w,
    )
}

/// The least number of steps that bring the droplet at place `i` to its
/// destination.
pub open spec fn steps_needed(ds: Seq<Droplet>, i: int, h: int, w: int) -> nat {
    choose|n: nat|
        takes(
            ds,
            i,
            ds[i].location.y as int,
            ds[i].location.x as int,
            ds[i].destination->0.y as int,
            ds[i].destination->0.x as int,
            n,
            h,
            w,
        )
}

/// The droplets once the droplet at place `i` stands at its destination.
pub open spec fn brought(ds: Seq<Droplet>, i: int) -> Seq<Droplet> {
    ds.update(i, Droplet { location: ds[i].destination->0, ..ds[i] })
}

/// The droplets with their destinations taken away.
pub open spec fn at_ease(ds: Seq<Droplet>) -> Seq<Droplet> {
    ds.map_values(|d: Droplet| Droplet { destination: None, ..d })
}

/// Where routing leaves the droplets, from the droplet at place `i` on: one
/// after the other, each droplet that has to go is brought to its
/// destination along a shortest way, while the others stay where they are.
/// Routing fails at the first droplet for which there is no way.
pub open spec fn routed_from(ds: Seq<Droplet>, i: int, h: int, w: int) -> Option<Seq<Droplet>>
    decreases ds.len() - i,
{
    if i < 0 || i >= ds.len() {
        Some(at_ease(ds))
    } else if !to_go(ds[i]) {
        routed_from(ds, i + 1, h, w)
    } else if !has_way(ds, i, h, w) {
        None
    } else {
        routed_from(brought(ds, i), i + 1, h, w)
    }
}

/// The droplets after each step that the router takes, from the droplet at
/// place `i` on, until it is done or fails.
pub open spec fn states_from(ds: Seq<Droplet>, i: int, h: int, w: int) -> Seq<Seq<Droplet>>
    decreases ds.len() - i,
{
    if i < 0 || i >= ds.len() {
        Seq::empty()
    } else if !to_go(ds[i]) {
        states_from(ds, i + 1, h, w)
    } else if !has_way(ds, i, h, w) {
        Seq::empty()
    } else {
        walked(
            ds,
            i,
            ds[i].location.y as int,
            ds[i].location.x as int,
            ds[i].destination->0.y as int,
            ds[i].destination->0.x as int,
            steps_needed(ds, i, h, w),
            h,
            w,
        ) + states_from(brought(ds, i), i + 1, h, w)
    }
}

/// Where the router leaves the droplets, from the droplet at place `i` on,
/// whether it brings them to their destinations or not: where it fails, the
/// droplets for which it found a way stand at their destinations, the others
/// where they stood, and all keep their destinations.
pub open spec fn route_end_from(ds: Seq<Droplet>, i: int, h: int, w: int) -> Seq<Droplet>
    decreases ds.len() - i,
{
    if i < 0 || i >= ds.len() {
        at_ease(ds)
    } else if !to_go(ds[i]) {
        route_end_from(ds, i + 1, h, w)
    } else if !has_way(ds, i, h, w) {
        ds
    } else {
        route_end_from(brought(ds, i), i + 1, h, w)
    }
}

/// Where routing leaves the droplets, if it brings each to its destination.
pub open spec fn routed(ds: Seq<Droplet>, h: int, w: int) -> Option<Seq<Droplet>> {
    routed_from(ds, 0, h, w)
}

/// Where the router leaves the droplets, whether it brings them to their
/// destinations or not.
pub open spec fn route_end(ds: Seq<Droplet>, h: int, w: int) -> Seq<Droplet> {
    route_end_from(ds, 0, h, w)
}

/// The frames of the ticks that pass while the droplets are routed: one
/// after each step but the last.
pub open spec fn route_frames(ds: Seq<Droplet>, h: int, w: int) -> Seq<Seq<Droplet>> {
    if states_from(ds, 0, h, w).len() == 0 {
        Seq::empty()
    } else {
        states_from(ds, 0, h, w).drop_last()
    }
}

/// No two numbers of steps are the least.
pub proof fn lemma_takes_one(
    ds: Seq<Droplet>,
    i: int,
    y: int,
    x: int,
    ty: int,
    tx: int,
    a: nat,
    b: nat,
    h: int,
    w: int,
)
    requires
        takes(ds, i, y, x, ty, tx, a, h, w),
        takes(ds, i, y, x, ty, tx, b, h, w),
    ensures
        a == b,
{
    if a < b {
        lemma_reaches_more(ds, i, y, x, ty, tx, a, (b - 1) as nat, h, w);
    }
    if b < a {
        lemma_reaches_more(ds, i, y, x, ty, tx, b, (a - 1) as nat, h, w);
    }
}

/// Droplets that have nowhere to go are routed at once: nothing moves, and
/// no tick passes.
pub proof fn lemma_routed_idle(ds: Seq<Droplet>, h: int, w: int)
    requires
        forall|i: int| 0 <= i < ds.len() ==> (#[trigger] ds[i]).destination is None,
    ensures
        routed(ds, h, w) == Some(ds),
        route_frames(ds, h, w) == Seq::<Seq<Droplet>>::empty(),
{
    lemma_idle_from(ds, 0, h, w);
    assert(at_ease(ds) =~= ds);
}

/// From any place on, droplets without destinations are left alone and no
/// tick is shown.
proof fn lemma_idle_from(ds: Seq<Droplet>, i: int, h: int, w: int)
    requires
        forall|j: int| 0 <= j < ds.len() ==> (#[trigger] ds[j]).destination is None,
        0 <= i,
    ensures
        routed_from(ds, i, h, w) == Some(at_ease(ds)),
        states_from(ds, i, h, w) == Seq::<Seq<Droplet>>::empty(),
    decreases ds.len() - i,
{
    if i < ds.len() {
        assert(ds[i].destination is None);
        lemma_idle_from(ds, i + 1, h, w);
    }
}

/// The frames that have been shown once one more droplet has been brought to
/// its destination.
pub proof fn lemma_frames_joined(
    before: Seq<Seq<Droplet>>,
    states: Seq<Seq<Droplet>>,
    cur: Seq<Droplet>,
    path: Seq<Seq<Droplet>>,
    shown_then: Seq<Seq<Droplet>>,
    shown_now: Seq<Seq<Droplet>>,
)
    requires
        path.len() > 0,
        shown_then == before + (if states.len() == 0 {
            Seq::<Seq<Droplet>>::empty()
        } else {
            states.drop_last()
        }),
        states.len() > 0 ==> states.last() == cur,
        shown_now == shown_then + (if states.len() > 0 {
            seq![cur]
        } else {
            Seq::<Seq<Droplet>>::empty()
        }) + path.drop_last(),
    ensures
        shown_now == before + (states + path).drop_last(),
        (states + path).last() == path.last(),
{
    if states.len() > 0 {
        assert(states =~= states.drop_last() + seq![cur]);
    }
    assert(shown_now =~= before + (states + path).drop_last());
}

impl GridView {
    /// Takes the destination from every droplet.
    fn clear_destinations(&mut self)
        ensures
            final(self).grid == old(self).grid,
            final(self).frames == old(self).frames,
            final(self).droplets() == at_ease(old(self).droplets()),
    {
        let mut i: usize = 0;
        while i < self.snapshot.droplets.len()
            invariant
                self.grid == old(self).grid,
                self.frames == old(self).frames,
                i <= self.droplets().len(),
                self.droplets().len() == old(self).droplets().len(),
                forall|k: int|
                    0 <= k < i ==> (#[trigger] self.droplets()[k]) == (Droplet {
                        destination: None,
                        ..old(self).droplets()[k]
                    }),
                forall|k: int|
                    i <= k < self.droplets().len() ==> (#[trigger] self.droplets()[k]) == old(
                        self,
                    ).droplets()[k],
            decreases self.droplets().len() - i,
        {
            let mut d = self.snapshot.droplets[i];
            d.destination = None;
            self.snapshot.droplets.set(i, d);
            i = i + 1;
        }
        assert(self.droplets() =~= at_ease(old(self).droplets()));
    }

    /// Brings every droplet that has a destination there, one after the
    /// other and each along a shortest way, one cell per tick, and takes the
    /// destinations away. A tick passes after each step but the last. Fails
    /// at the first droplet for which there is no way, or which is pinned;
    /// the droplets then stand as they have been left, and keep their
    /// destinations.
    pub fn route(&mut self) -> (r: Result<(), PlanError>)
        requires
            old(self).wf(),
        ensures
            final(self).wf(),
            final(self).grid == old(self).grid,
            final(self).droplets() == route_end(
                old(self).droplets(),
                old(self).grid.height() as int,
                old(self).grid.width() as int,
            ),
            final(self).ticks() == old(self).ticks() + route_frames(
                old(self).droplets(),
                old(self).grid.height() as int,
                old(self).grid.width() as int,
            ),
            match routed(
                old(self).droplets(),
                old(self).grid.height() as int,
                old(self).grid.width() as int,
            ) {
                Some(ds) => r is Ok && final(self).droplets() == ds,
                None => r == Err::<(), PlanError>(PlanError::RouteError),
            },
            r is Ok ==> final(self).droplets().len() == old(self).droplets().len() && forall|i: int|
                0 <= i < old(self).droplets().len() ==> (#[trigger] final(self).droplets()[i]) == (
                Droplet {
                    location: match old(self).droplets()[i].destination {
                        Some(dest) => dest,
                        None => old(self).droplets()[i].location,
                    },
                    destination: None,
                    ..old(self).droplets()[i]
                }),
    {
        let ghost gh = self.grid.height() as int;
        let ghost gw = self.grid.width() as int;
        let ghost ds0 = self.droplets();
        let ghost mut states: Seq<Seq<Droplet>> = Seq::empty();
        let h = self.grid.max_height();
        let w = self.grid.max_width();
        let n = self.snapshot.droplets.len();
        let mut stepped = false;
        let mut i: usize = 0;
        proof {
            assert(self.ticks() + Seq::<Seq<Droplet>>::empty() =~= self.ticks());
            assert(states + states_from(ds0, 0, gh, gw) =~= states_from(ds0, 0, gh, gw));
        }
        while i < n
            invariant
                self.wf(),
                self.grid == old(self).grid,
                gh == self.grid.height(),
                gw == self.grid.width(),
                h == gh,
                w == gw,
                ds0 == old(self).droplets(),
                n == ds0.len(),
                self.droplets().len() == n,
                i <= n,
                routed_from(self.droplets(), i as int, gh, gw) == routed_from(ds0, 0, gh, gw),
                route_end_from(self.droplets(), i as int, gh, gw) == route_end_from(
                    ds0,
                    0,
                    gh,
                    gw,
                ),
                states + states_from(self.droplets(), i as int, gh, gw) == states_from(
                    ds0,
                    0,
                    gh,
                    gw,
                ),
                stepped == (states.len() > 0),
                states.len() > 0 ==> states.last() == self.droplets(),
                self.ticks() == old(self).ticks() + (if states.len() == 0 {
                    Seq::<Seq<Droplet>>::empty()
                } else {
                    states.drop_last()
                }),
                forall|j: int|
                    0 <= j < n ==> (#[trigger] self.droplets()[j]) == (Droplet {
                        location: self.droplets()[j].location,
                        ..ds0[j]
                    }),
                forall|j: int|
                    0 <= j < i && (#[trigger] ds0[j]).destination is Some
                        ==> self.droplets()[j].location == ds0[j].destination->0,
                forall|j: int|
                    0 <= j < n && (j >= i || (#[trigger] ds0[j]).destination is None)
                        ==> self.droplets()[j].location == ds0[j].location,
            decreases n - i,
        {
            let ghost cur = self.droplets();
            let ghost shown = self.ticks();
            let d = self.snapshot.droplets[i];
            proof {
                assert(cur[i as int].within(gh, gw));
            }
            let dest = match d.destination {
                Some(dest) => dest,
                None => d.location,
            };
            if dest.y != d.location.y || dest.x != d.location.x {
                if d.pinned || dest.y < 0 || dest.x < 0 || dest.y as usize >= h || dest.x as usize
                    >= w {
                    proof {
                        if !d.pinned {
                            lemma_nothing_reaches(
                                cur,
                                i as int,
                                d.location.y as int,
                                d.location.x as int,
                                dest.y as int,
                                dest.x as int,
                                step_limit(gh, gw),
                                gh,
                                gw,
                            );
                        }
                        assert(states + Seq::<Seq<Droplet>>::empty() =~= states);
                    }
                    return Err(PlanError::RouteError);
                }
                let ty = dest.y as usize;
                let tx = dest.x as usize;
                let (labels, k) = self.survey(
                    i,
                    d.location.y as usize,
                    d.location.x as usize,
                    ty,
                    tx,
                );
                if labels[d.location.y as usize][d.location.x as usize] == UNSEEN {
                    proof {
                        assert(states + Seq::<Seq<Droplet>>::empty() =~= states);
                    }
                    return Err(PlanError::RouteError);
                }
                self.walk(i, &labels, ty, tx, stepped, Ghost(k as nat));
                stepped = true;
                proof {
                    let next = self.droplets();
                    let steps = label_at(labels@, d.location.y as int, d.location.x as int) as nat;
                    let needed = steps_needed(cur, i as int, gh, gw);
                    assert(takes(
                        cur,
                        i as int,
                        d.location.y as int,
                        d.location.x as int,
                        dest.y as int,
                        dest.x as int,
                        needed,
                        gh,
                        gw,
                    ));
                    lemma_takes_one(
                        cur,
                        i as int,
                        d.location.y as int,
                        d.location.x as int,
                        dest.y as int,
                        dest.x as int,
                        steps,
                        needed,
                        gh,
                        gw,
                    );
                    assert(steps > 0);
                    assert(next =~= brought(cur, i as int));
                    let path = walked(
                        cur,
                        i as int,
                        d.location.y as int,
                        d.location.x as int,
                        dest.y as int,
                        dest.x as int,
                        steps,
                        gh,
                        gw,
                    );
                    lemma_frames_joined(
                        old(self).ticks(),
                        states,
                        cur,
                        path,
                        shown,
                        self.ticks(),
                    );
                    assert((states + path) + states_from(next, i + 1, gh, gw) =~= states + (path
                        + states_from(next, i + 1, gh, gw)));
                    states = states + path;
                }
            }
            i = i + 1;
        }
        let ghost last = self.droplets();
        self.clear_destinations();
        proof {
            let ds = self.droplets();
            assert(states + Seq::<Seq<Droplet>>::empty() =~= states);
            assert forall|a: int, b: int|
                #![trigger ds[a], ds[b]]
                0 <= a < ds.len() && 0 <= b < ds.len() && a != b implies ds[a].id != ds[b].id
                && !ds[a].collides(ds[b]) by {
                assert(last[a].id != last[b].id);
                assert(!last[a].collides(last[b]));
            }
            assert forall|a: int| 0 <= a < ds.len() implies (#[trigger] ds[a]).within(gh, gw) by {
                assert(last[a].within(gh, gw));
            }
        }
        Ok(())
    }
}

} // verus!
