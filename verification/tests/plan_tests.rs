use puddle_core::command::{
    pin_levels, Agitate, Combine, Command, CommandRequest, Create, Effect, Flush, Heat, Input,
    Move, Output, Split, AGITATE_PADDING, PORT_FAR_LOWER, PORT_FAR_UPPER, PORT_NEAR_LOWER,
    PORT_NEAR_UPPER, PORT_STEP_MILLIS, SPLIT_PADDING,
};
use puddle_core::grid::gridview::{Placement, N_CHANNELS};
use puddle_core::plan::place::contains_id;
use puddle_core::{
    Droplet, DropletId, Grid, GridView, Location, Peripheral, PlanError, Snapshot,
};

fn id(n: usize) -> DropletId {
    DropletId {
        id: n,
        process_id: 0,
    }
}

fn loc(y: i32, x: i32) -> Location {
    Location { y, x }
}

fn droplet_at(n: usize, y: i32, x: i32, h: i32, w: i32) -> Droplet {
    Droplet::new(id(n), 100, loc(y, x), loc(h, w))
}

fn board(rows: usize, cols: usize, ds: Vec<Droplet>) -> GridView {
    let mut gv = GridView::new(Grid::rectangle(rows, cols));
    gv.snapshot.droplets = ds;
    gv
}

fn plain(shape: &Grid) -> bool {
    shape
        .rows
        .iter()
        .all(|row| row.iter().all(|cell| cell.peripheral.is_none()))
}

fn dims(shape: &Grid) -> (usize, usize) {
    (shape.max_height(), shape.max_width())
}

#[test]
fn contains_id_looks_through_the_names() {
    let ids = vec![id(3), id(5)];
    assert!(contains_id(&ids, &id(5)));
    assert!(!contains_id(&ids, &id(4)));
    assert!(!contains_id(&vec![], &id(4)));
}

#[test]
fn place_finds_the_first_free_cell_row_by_row() {
    let g = Grid::rectangle(4, 6);
    let taken = Snapshot {
        droplets: vec![droplet_at(0, 0, 0, 1, 1)],
    };
    let shape = Grid::rectangle(1, 1);
    let p = g.place(&shape, &taken, &vec![]).unwrap();
    assert_eq!(p.offset, loc(0, 2));
    assert_eq!((p.height, p.width), (1, 1));
    // a region that is too wide for the first row goes to a later row
    let shape = Grid::rectangle(2, 4);
    let p = g.place(&shape, &taken, &vec![]).unwrap();
    assert_eq!(p.offset, loc(0, 2));
    assert_eq!((p.height, p.width), (2, 4));
    let shape = Grid::rectangle(2, 5);
    let p = g.place(&shape, &taken, &vec![]).unwrap();
    assert_eq!(p.offset, loc(2, 0));
    assert!(g.place(&Grid::rectangle(3, 5), &taken, &vec![]).is_none());
}

#[test]
fn place_keeps_a_free_cell_around_droplets() {
    let g = Grid::rectangle(2, 2);
    let taken = Snapshot {
        droplets: vec![droplet_at(0, 0, 0, 1, 1)],
    };
    // every other cell touches the droplet, if only at a corner
    assert!(g.place(&Grid::rectangle(1, 1), &taken, &vec![]).is_none());
    // the droplet does not count where it is an input
    let p = g.place(&Grid::rectangle(1, 1), &taken, &vec![id(0)]).unwrap();
    assert_eq!(p.offset, loc(0, 0));
    // nor where it is pinned
    let mut pinned = droplet_at(0, 0, 0, 1, 1);
    pinned.pinned = true;
    let taken = Snapshot {
        droplets: vec![pinned],
    };
    let p = g.place(&Grid::rectangle(1, 1), &taken, &vec![]).unwrap();
    assert_eq!(p.offset, loc(0, 0));
}

#[test]
fn place_needs_room_on_the_grid() {
    let g = Grid::rectangle(3, 3);
    let empty = Snapshot::new();
    assert!(g.place(&Grid::rectangle(4, 1), &empty, &vec![]).is_none());
    assert!(g.place(&Grid::rectangle(1, 4), &empty, &vec![]).is_none());
    let p = g.place(&Grid::rectangle(3, 3), &empty, &vec![]).unwrap();
    assert_eq!(p.offset, loc(0, 0));
    // a region without cells goes to the first cell
    let p = g.place(&Grid::rectangle(0, 0), &empty, &vec![]).unwrap();
    assert_eq!(p.offset, loc(0, 0));
    // but not onto a grid without cells
    assert!(Grid::rectangle(0, 0)
        .place(&Grid::rectangle(0, 0), &empty, &vec![])
        .is_none());
}

#[test]
fn place_aligns_placeholders_with_peripherals() {
    let mut g = Grid::rectangle(3, 4);
    g.set_peripheral(
        &loc(1, 2),
        Peripheral::Input {
            pwm_channel: 7,
            name: "water".to_string(),
        },
    );
    g.set_peripheral(
        &loc(2, 3),
        Peripheral::Heater {
            pwm_channel: 1,
            spi_channel: 2,
        },
    );
    let empty = Snapshot::new();
    let mut wants_heater = Grid::rectangle(2, 1);
    wants_heater.set_peripheral(
        &loc(1, 0),
        Peripheral::Heater {
            pwm_channel: 0,
            spi_channel: 0,
        },
    );
    let p = g.place(&wants_heater, &empty, &vec![]).unwrap();
    assert_eq!(p.offset, loc(1, 3));
    let mut wants_water = Grid::rectangle(1, 2);
    wants_water.set_peripheral(
        &loc(0, 1),
        Peripheral::Input {
            pwm_channel: 0,
            name: "water".to_string(),
        },
    );
    let p = g.place(&wants_water, &empty, &vec![]).unwrap();
    assert_eq!(p.offset, loc(1, 1));
    let mut wants_oil = Grid::rectangle(1, 2);
    wants_oil.set_peripheral(
        &loc(0, 1),
        Peripheral::Input {
            pwm_channel: 0,
            name: "oil".to_string(),
        },
    );
    assert!(g.place(&wants_oil, &empty, &vec![]).is_none());
}

#[test]
fn is_compatible_within_tells_whether_the_region_fits() {
    let g = Grid::rectangle(3, 3);
    let taken = Snapshot {
        droplets: vec![droplet_at(0, 2, 2, 1, 1)],
    };
    let shape = Grid::rectangle(1, 2);
    assert!(g.is_compatible_within(&loc(0, 0), &shape, &taken, &vec![]));
    assert!(g.is_compatible_within(&loc(0, 1), &shape, &taken, &vec![]));
    assert!(!g.is_compatible_within(&loc(1, 0), &shape, &taken, &vec![]));
    assert!(!g.is_compatible_within(&loc(0, 2), &shape, &taken, &vec![]));
    assert!(!g.is_compatible_within(&loc(-1, 0), &shape, &taken, &vec![]));
    assert!(!g.is_compatible_within(&loc(3, 0), &shape, &taken, &vec![]));
    assert!(g.is_compatible_within(&loc(1, 0), &shape, &taken, &vec![id(0)]));
}

#[test]
fn dispatch_gives_destinations_to_the_inputs() {
    let mut gv = board(
        4,
        4,
        vec![
            droplet_at(0, 0, 0, 1, 1),
            droplet_at(1, 0, 2, 1, 1),
            droplet_at(2, 3, 3, 1, 1),
        ],
    );
    let p = Placement {
        offset: loc(2, 0),
        height: 2,
        width: 2,
    };
    gv.dispatch(&vec![loc(1, 1), loc(0, 0)], &vec![id(1), id(0)], &p);
    assert_eq!(gv.snapshot.droplets[0].destination, Some(loc(2, 0)));
    assert_eq!(gv.snapshot.droplets[1].destination, Some(loc(3, 1)));
    assert_eq!(gv.snapshot.droplets[2].destination, None);
    assert_eq!(gv.snapshot.droplets[0].location, loc(0, 0));
}

#[test]
fn route_takes_a_shortest_way_one_cell_per_tick() {
    let mut d = droplet_at(0, 0, 0, 1, 1);
    d.destination = Some(loc(2, 1));
    let mut gv = board(3, 3, vec![d]);
    assert_eq!(gv.route(), Ok(()));
    assert_eq!(gv.snapshot.droplets[0].location, loc(2, 1));
    assert_eq!(gv.snapshot.droplets[0].destination, None);
    // of the cells that are one step nearer, the one below comes before the
    // one to the right
    let places: Vec<Location> = gv.frames.iter().map(|f| f[0].location).collect();
    assert_eq!(places, vec![loc(1, 0), loc(2, 0)]);
}

#[test]
fn route_ticks_between_steps_and_clears_destinations() {
    let mut d = droplet_at(0, 0, 0, 1, 1);
    d.destination = Some(loc(0, 3));
    let still = droplet_at(1, 2, 0, 1, 1);
    let mut gv = board(3, 4, vec![d, still]);
    assert_eq!(gv.route(), Ok(()));
    assert_eq!(gv.snapshot.droplets[0].location, loc(0, 3));
    assert_eq!(gv.snapshot.droplets[0].destination, None);
    assert_eq!(gv.snapshot.droplets[1].location, loc(2, 0));
    // three steps, a tick after each but the last
    assert_eq!(gv.frames.len(), 2);
    assert_eq!(gv.frames[0][0].location, loc(0, 1));
    assert_eq!(gv.frames[1][0].location, loc(0, 2));
}

#[test]
fn route_without_destinations_does_nothing() {
    let mut gv = board(3, 3, vec![droplet_at(0, 1, 1, 1, 1)]);
    assert_eq!(gv.route(), Ok(()));
    assert_eq!(gv.frames.len(), 0);
    assert_eq!(gv.snapshot.droplets[0].location, loc(1, 1));
}

#[test]
fn route_goes_around_a_droplet_in_the_way() {
    // the way along the row is barred, so the droplet goes around
    let mut d = droplet_at(0, 0, 0, 1, 1);
    d.destination = Some(loc(0, 4));
    let bar = droplet_at(1, 0, 2, 1, 1);
    let mut gv = board(3, 5, vec![d, bar]);
    assert_eq!(gv.route(), Ok(()));
    assert_eq!(gv.snapshot.droplets[0].location, loc(0, 4));
    assert_eq!(gv.snapshot.droplets[1].location, loc(0, 2));
    let places: Vec<Location> = gv.frames.iter().map(|f| f[0].location).collect();
    assert_eq!(
        places,
        vec![
            loc(1, 0),
            loc(2, 0),
            loc(2, 1),
            loc(2, 2),
            loc(2, 3),
            loc(2, 4),
            loc(1, 4)
        ]
    );
    // at no tick did the two touch
    for f in &gv.frames {
        assert!(f[0].collision_distance(&f[1]) > 0);
    }
    assert_eq!(gv.snapshot.get_collision(), None);
}

#[test]
fn route_brings_the_droplets_one_after_the_other() {
    let mut a = droplet_at(0, 0, 0, 1, 1);
    a.destination = Some(loc(0, 2));
    let mut b = droplet_at(1, 2, 4, 1, 1);
    b.destination = Some(loc(2, 2));
    let still = droplet_at(2, 4, 0, 1, 1);
    let mut gv = board(5, 5, vec![a, still, b]);
    assert_eq!(gv.route(), Ok(()));
    let places: Vec<(Location, Location)> = gv
        .frames
        .iter()
        .map(|f| (f[0].location, f[2].location))
        .collect();
    assert_eq!(
        places,
        vec![
            (loc(0, 1), loc(2, 4)),
            (loc(0, 2), loc(2, 4)),
            (loc(0, 2), loc(2, 3))
        ]
    );
    assert_eq!(gv.snapshot.droplets[0].location, loc(0, 2));
    assert_eq!(gv.snapshot.droplets[1].location, loc(4, 0));
    assert_eq!(gv.snapshot.droplets[2].location, loc(2, 2));
    assert!(gv.snapshot.droplets.iter().all(|d| d.destination.is_none()));
}

#[test]
fn route_fails_for_a_destination_off_the_board() {
    let mut d = droplet_at(0, 0, 0, 1, 2);
    d.destination = Some(loc(0, 4));
    let mut gv = board(1, 5, vec![d]);
    assert_eq!(gv.route(), Err(PlanError::RouteError));
    let mut d = droplet_at(0, 0, 0, 1, 1);
    d.destination = Some(loc(-1, 0));
    let mut gv = board(1, 5, vec![d]);
    assert_eq!(gv.route(), Err(PlanError::RouteError));
    assert_eq!(gv.snapshot.droplets[0].location, loc(0, 0));
    assert_eq!(gv.snapshot.droplets[0].destination, Some(loc(-1, 0)));
    assert_eq!(gv.frames.len(), 0);
}

#[test]
fn route_fails_where_a_droplet_bars_the_way() {
    let mut d = droplet_at(0, 0, 0, 1, 1);
    d.destination = Some(loc(0, 4));
    let bar = droplet_at(1, 0, 2, 1, 1);
    let mut gv = board(1, 5, vec![d, bar]);
    assert_eq!(gv.route(), Err(PlanError::RouteError));
}

#[test]
fn route_lets_droplets_of_one_group_touch() {
    let mut d = droplet_at(0, 0, 0, 1, 1);
    d.destination = Some(loc(0, 1));
    d.collision_group = 9;
    let mut other = droplet_at(1, 0, 2, 1, 1);
    other.collision_group = 9;
    let mut gv = board(1, 5, vec![d, other]);
    assert_eq!(gv.route(), Ok(()));
    assert_eq!(gv.snapshot.droplets[0].location, loc(0, 1));
}

#[test]
fn route_leaves_pinned_droplets_where_they_are() {
    let mut d = droplet_at(0, 0, 0, 1, 1);
    d.destination = Some(loc(0, 2));
    d.pinned = true;
    let mut gv = board(1, 5, vec![d]);
    assert_eq!(gv.route(), Err(PlanError::RouteError));
    assert_eq!(gv.snapshot.droplets[0].location, loc(0, 0));
}

#[test]
fn create_request_asks_for_the_footprint() {
    let mut gv = board(5, 5, vec![]);
    let cmd = Create::new(None, 7, Some(loc(2, 3)), id(0)).unwrap();
    assert_eq!(cmd.location, loc(0, 0));
    assert!(!cmd.trusted);
    assert_eq!(cmd.volume, 7);
    let req: CommandRequest = cmd.request(&mut gv);
    assert_eq!(dims(&req.shape), (2, 3));
    assert!(plain(&req.shape));
    assert!(req.input_locations.is_empty());
    assert!(!req.trusted);
    assert!(cmd.input_droplets().is_empty());
    assert_eq!(cmd.output_droplets(), vec![id(0)]);
    assert!(!cmd.bypass(&gv));
}

#[test]
fn create_with_location_is_trusted() {
    let mut gv = board(5, 5, vec![]);
    let cmd = Create::new(Some(loc(3, 1)), 7, None, id(0)).unwrap();
    assert_eq!(cmd.dimensions, loc(1, 1));
    assert_eq!(cmd.location, loc(3, 1));
    let req = cmd.request(&mut gv);
    assert!(req.trusted);
    assert_eq!(req.origin, loc(3, 1));
    assert_eq!(dims(&req.shape), (1, 1));
}

#[test]
fn flush_request_asks_for_nothing() {
    let mut gv = board(5, 5, vec![]);
    let cmd = Flush::new(3);
    let req = cmd.request(&mut gv);
    assert_eq!(dims(&req.shape), (0, 0));
    assert!(req.input_locations.is_empty());
    assert!(!req.trusted);
    assert!(cmd.input_droplets().is_empty());
    assert!(cmd.output_droplets().is_empty());
}

#[test]
fn flush_reports_on_finalize_and_on_abort() {
    let mut a = droplet_at(0, 0, 0, 1, 1);
    a.id.process_id = 3;
    let b = droplet_at(1, 0, 2, 1, 1);
    let snapshot = Snapshot {
        droplets: vec![a, b],
    };
    let mut cmd = Flush::new(3);
    let fx = cmd.finalize(&snapshot);
    assert_eq!(fx.len(), 1);
    match &fx[0] {
        Effect::Report { pid, result } => {
            assert_eq!(*pid, 3);
            assert_eq!(result.as_ref().unwrap(), &vec![a.info()]);
        }
        other => panic!("unexpected effect {:?}", other),
    }
    let fx = cmd.abort(PlanError::PlaceError);
    assert_eq!(fx.len(), 1);
    match &fx[0] {
        Effect::Report { pid, result } => {
            assert_eq!(*pid, 3);
            assert_eq!(result.as_ref().err(), Some(&PlanError::PlaceError));
        }
        other => panic!("unexpected effect {:?}", other),
    }
}

#[test]
fn move_request_names_the_destination() {
    let mut gv = board(5, 5, vec![droplet_at(4, 0, 0, 2, 3)]);
    let cmd = Move::new(id(4), loc(3, 1), id(5)).unwrap();
    let req = cmd.request(&mut gv);
    assert_eq!(dims(&req.shape), (2, 3));
    assert!(plain(&req.shape));
    assert_eq!(req.input_locations, vec![loc(0, 0)]);
    assert!(req.trusted);
    assert_eq!(req.origin, loc(3, 1));
    assert_eq!(cmd.input_droplets(), vec![id(4)]);
    assert_eq!(cmd.output_droplets(), vec![id(5)]);
}

#[test]
fn combined_stacks_the_second_on_the_first() {
    let cmd = Combine::new(id(0), id(1), id(2)).unwrap();
    let mut d0 = Droplet::new(id(0), 10, loc(5, 2), loc(2, 3));
    let d1 = Droplet::new(id(1), 7, loc(0, 0), loc(1, 4));
    let blob = cmd.combined(&d0, &d1);
    assert_eq!(blob.location, loc(4, 2));
    assert_eq!(blob.dimensions, loc(3, 4));
    assert_eq!(blob.volume, 17);
    // the wider one gives the width, whichever it is
    let blob = cmd.combined(&d1, &d0);
    assert_eq!(blob.location, loc(-2, 0));
    assert_eq!(blob.dimensions, loc(3, 4));
    // a sum beyond the largest count stays at the largest count
    d0.volume = u64::MAX - 3;
    assert_eq!(cmd.combined(&d0, &d1).volume, u64::MAX);
    d0.volume = u64::MAX - 7;
    assert_eq!(cmd.combined(&d0, &d1).volume, u64::MAX);
    d0.volume = u64::MAX - 8;
    assert_eq!(cmd.combined(&d0, &d1).volume, u64::MAX - 1);
}

#[test]
fn combine_request_groups_the_inputs() {
    let mut gv = board(
        9,
        9,
        vec![droplet_at(0, 0, 0, 1, 2), droplet_at(1, 0, 4, 2, 1)],
    );
    let cmd = Combine::new(id(0), id(1), id(2)).unwrap();
    assert!(!cmd.pin_d0);
    let req = cmd.request(&mut gv);
    assert_eq!(dims(&req.shape), (3, 2));
    assert!(plain(&req.shape));
    assert_eq!(req.input_locations, vec![loc(2, 0), loc(0, 0)]);
    assert!(!req.trusted);
    assert_eq!(gv.snapshot.droplets[0].collision_group, 1);
    assert_eq!(gv.snapshot.droplets[1].collision_group, 1);
    assert!(!gv.snapshot.droplets[0].pinned);
    assert_eq!(cmd.input_droplets(), vec![id(0), id(1)]);
    assert_eq!(cmd.output_droplets(), vec![id(2)]);
}

#[test]
fn combine_into_request_pins_the_first_input() {
    let mut gv = board(
        9,
        9,
        vec![droplet_at(0, 5, 3, 1, 2), droplet_at(1, 0, 4, 2, 1)],
    );
    let cmd = Combine::combine_into(id(0), id(1), id(2)).unwrap();
    assert!(cmd.pin_d0);
    let req = cmd.request(&mut gv);
    assert_eq!(dims(&req.shape), (3, 2));
    assert_eq!(req.input_locations, vec![loc(2, 0), loc(0, 0)]);
    assert!(req.trusted);
    assert_eq!(req.origin, loc(3, 3));
    assert!(gv.snapshot.droplets[0].pinned);
    assert!(!gv.snapshot.droplets[1].pinned);
    assert_eq!(gv.snapshot.droplets[0].collision_group, 1);
}

#[test]
fn combine_bypass_knows_a_merge_that_has_happened() {
    let cmd = Combine::new(id(0), id(1), id(2)).unwrap();
    assert!(!cmd.bypass(&board(3, 3, vec![])));
    assert!(cmd.bypass(&board(3, 3, vec![droplet_at(2, 0, 0, 1, 1)])));
    assert!(!cmd.bypass(&board(
        5,
        5,
        vec![droplet_at(2, 0, 0, 1, 1), droplet_at(0, 3, 3, 1, 1)]
    )));
    assert!(!cmd.bypass(&board(3, 3, vec![droplet_at(0, 0, 0, 1, 1)])));
}

#[test]
fn combine_pre_run_puts_the_merged_droplet_in_the_region() {
    let mut lower = droplet_at(0, 3, 2, 1, 2);
    let mut upper = droplet_at(1, 1, 2, 2, 1);
    lower.collision_group = 1;
    upper.collision_group = 1;
    lower.volume = 30;
    upper.volume = 12;
    let outsider = droplet_at(7, 0, 6, 1, 1);
    let gv = board(6, 8, vec![lower, outsider, upper]);
    let mut sv = gv.subview(
        vec![id(0), id(1)],
        Placement {
            offset: loc(1, 2),
            height: 3,
            width: 2,
        },
    );
    let mut cmd = Combine::new(id(0), id(1), id(2)).unwrap();
    cmd.pre_run(&mut sv);
    assert_eq!(sv.ids, vec![id(2)]);
    let ds = &sv.backing_gridview.snapshot.droplets;
    assert_eq!(ds.len(), 2);
    assert_eq!(ds[0].id, id(7));
    let merged = ds[1];
    assert_eq!(merged.id, id(2));
    assert_eq!(merged.location, loc(1, 2));
    assert_eq!(merged.dimensions, loc(3, 2));
    assert_eq!(merged.volume, 42);
    assert_eq!(merged.collision_group, 2);
    assert!(!merged.pinned);
    // no tick has passed, and the run changes nothing
    assert_eq!(sv.backing_gridview.frames.len(), 0);
    cmd.run(&mut sv);
    assert_eq!(sv.backing_gridview.frames.len(), 0);
    assert_eq!(sv.backing_gridview.snapshot.droplets.len(), 2);
}

#[test]
fn agitate_request_leaves_room_to_jostle() {
    let mut gv = board(9, 9, vec![droplet_at(0, 0, 0, 2, 3)]);
    let cmd = Agitate::new(id(0), id(1)).unwrap();
    assert_eq!(cmd.n_agitation_loops, 1);
    let req = cmd.request(&mut gv);
    assert_eq!(dims(&req.shape), (2 + AGITATE_PADDING, 3 + AGITATE_PADDING));
    assert_eq!(dims(&req.shape), (3, 4));
    assert_eq!(req.input_locations, vec![loc(0, 0)]);
    assert!(!req.trusted);
}

#[test]
fn agitate_run_goes_once_around() {
    let gv = board(6, 6, vec![droplet_at(0, 2, 1, 1, 2)]);
    let mut sv = gv.subview(
        vec![id(0)],
        Placement {
            offset: loc(2, 1),
            height: 2,
            width: 3,
        },
    );
    let mut cmd = Agitate::new(id(0), id(1)).unwrap();
    cmd.n_agitation_loops = 2;
    cmd.run(&mut sv);
    let gv = sv.into_gridview();
    let places: Vec<Location> = gv.frames.iter().map(|f| f[0].location).collect();
    assert_eq!(
        places,
        vec![
            loc(3, 1),
            loc(3, 2),
            loc(2, 2),
            loc(2, 1),
            loc(3, 1),
            loc(3, 2),
            loc(2, 2),
            loc(2, 1)
        ]
    );
    assert_eq!(gv.snapshot.droplets.len(), 1);
    assert_eq!(gv.snapshot.droplets[0].id, id(1));
    assert_eq!(gv.snapshot.droplets[0].location, loc(2, 1));
    assert_eq!(gv.snapshot.droplets[0].collision_group, 0);
}

#[test]
fn split_request_pads_the_columns() {
    let mut gv = board(9, 9, vec![droplet_at(0, 0, 0, 2, 3)]);
    let cmd = Split::new(id(0), id(1), id(2)).unwrap();
    let req = cmd.request(&mut gv);
    assert_eq!(dims(&req.shape), (2, 3 + SPLIT_PADDING));
    assert_eq!(dims(&req.shape), (2, 7));
    assert!(plain(&req.shape));
    assert_eq!(req.input_locations, vec![loc(0, 2)]);
    assert!(!req.trusted);
    assert_eq!(cmd.input_droplets(), vec![id(0)]);
    assert_eq!(cmd.output_droplets(), vec![id(1), id(2)]);
}

#[test]
fn split_bypass_knows_a_split_that_has_happened() {
    let cmd = Split::new(id(0), id(1), id(2)).unwrap();
    assert!(!cmd.bypass(&board(3, 3, vec![droplet_at(0, 0, 0, 1, 1)])));
    assert!(!cmd.bypass(&board(3, 3, vec![droplet_at(1, 0, 0, 1, 1)])));
    assert!(cmd.bypass(&board(
        5,
        5,
        vec![droplet_at(1, 0, 0, 1, 1), droplet_at(2, 3, 3, 1, 1)]
    )));
    assert!(!cmd.bypass(&board(
        5,
        5,
        vec![
            droplet_at(1, 0, 0, 1, 1),
            droplet_at(2, 2, 2, 1, 1),
            droplet_at(0, 4, 4, 1, 1)
        ]
    )));
}

fn run_split(width: i32, volume: u64) -> GridView {
    let mut whole = droplet_at(0, 1, 3, 2, width);
    whole.volume = volume;
    let gv = board(5, 12, vec![whole]);
    let mut sv = gv.subview(
        vec![id(0)],
        Placement {
            offset: loc(1, 1),
            height: 2,
            width: width as usize + 4,
        },
    );
    let mut cmd = Split::new(id(0), id(1), id(2)).unwrap();
    cmd.run(&mut sv);
    assert_eq!(sv.ids, vec![id(1), id(2)]);
    sv.into_gridview()
}

#[test]
fn split_run_halves_an_odd_width_rounding_up() {
    let gv = run_split(3, 11);
    assert_eq!(gv.frames.len(), 2);
    // right after the split the halves lie one column inside the region
    assert_eq!(gv.frames[0][0].location, loc(1, 2));
    assert_eq!(gv.frames[0][1].location, loc(1, 5));
    // in the end they lie at its ends
    let ds = &gv.snapshot.droplets;
    assert_eq!(ds.len(), 2);
    assert_eq!((ds[0].id, ds[1].id), (id(1), id(2)));
    assert_eq!(ds[0].location, loc(1, 1));
    assert_eq!(ds[1].location, loc(1, 6));
    assert_eq!(ds[0].dimensions, loc(2, 2));
    assert_eq!(ds[1].dimensions, loc(2, 2));
    assert_eq!(ds[0].volume, 5);
    assert_eq!(ds[1].volume, 5);
    assert_eq!((ds[0].collision_group, ds[1].collision_group), (1, 2));
    assert_eq!(gv.frames[1][0].location, loc(1, 1));
}

#[test]
fn split_run_of_one_column_gives_two_cells_apart() {
    let gv = run_split(1, 1_000_000);
    let ds = &gv.snapshot.droplets;
    assert_eq!(ds[0].dimensions, loc(2, 1));
    assert_eq!(ds[1].dimensions, loc(2, 1));
    assert_eq!(ds[0].location, loc(1, 1));
    assert_eq!(ds[1].location, loc(1, 5));
    assert_eq!(ds[0].volume, 500_000);
    assert_eq!(ds[1].volume, 500_000);
    assert!(ds[0].collision_distance(&ds[1]) >= 1);
}

#[test]
fn split_run_halves_an_even_width() {
    let gv = run_split(4, 8);
    let ds = &gv.snapshot.droplets;
    assert_eq!(ds[0].dimensions, loc(2, 2));
    assert_eq!(ds[0].location, loc(1, 1));
    assert_eq!(ds[1].location, loc(1, 7));
    assert_eq!(ds[1].volume, 4);
}

#[test]
fn heat_request_wants_a_heater_under_the_last_row() {
    let mut gv = board(9, 9, vec![droplet_at(0, 0, 0, 3, 1)]);
    let cmd = Heat::new(id(0), id(1), 60_000, 1000).unwrap();
    assert!(cmd.heater.is_none());
    let req = cmd.request(&mut gv);
    assert_eq!(dims(&req.shape), (3, 1));
    assert_eq!(req.input_locations, vec![loc(2, 0)]);
    assert!(!req.trusted);
    assert!(req.shape.get_cell(&loc(0, 0)).unwrap().peripheral.is_none());
    assert!(req.shape.get_cell(&loc(1, 0)).unwrap().peripheral.is_none());
    assert!(matches!(
        req.shape.get_cell(&loc(2, 0)).unwrap().peripheral,
        Some(Peripheral::Heater {
            pwm_channel: 0,
            spi_channel: 0
        })
    ));
}

#[test]
fn heat_run_notes_the_heater_and_finalize_lists_the_heating() {
    let mut grid = Grid::rectangle(4, 4);
    grid.set_peripheral(
        &loc(2, 1),
        Peripheral::Heater {
            pwm_channel: 6,
            spi_channel: 9,
        },
    );
    let mut gv = GridView::new(grid);
    gv.snapshot.droplets = vec![droplet_at(0, 2, 1, 1, 1)];
    let mut sv = gv.subview(
        vec![id(0)],
        Placement {
            offset: loc(2, 1),
            height: 1,
            width: 1,
        },
    );
    let mut cmd = Heat::new(id(0), id(1), 37_500, 2500).unwrap();
    cmd.run(&mut sv);
    assert!(matches!(
        cmd.heater,
        Some(Peripheral::Heater {
            pwm_channel: 6,
            spi_channel: 9
        })
    ));
    let gv = sv.into_gridview();
    assert_eq!(gv.frames.len(), 1);
    assert_eq!(gv.snapshot.droplets[0].id, id(1));
    assert_eq!(gv.snapshot.droplets[0].volume, 100);
    let fx = cmd.finalize(&gv.snapshot);
    assert_eq!(fx.len(), 1);
    match &fx[0] {
        Effect::Heat {
            heater,
            temperature,
            duration,
        } => {
            assert!(matches!(
                heater,
                Peripheral::Heater {
                    pwm_channel: 6,
                    spi_channel: 9
                }
            ));
            assert_eq!(*temperature, 37_500);
            assert_eq!(*duration, 2500);
        }
        other => panic!("unexpected effect {:?}", other),
    }
    assert!(cmd.heater.is_none());
}

#[test]
fn input_request_wants_a_port_beside_the_middle_row() {
    let mut gv = board(9, 9, vec![]);
    let cmd = Input::new("water".to_string(), 50, loc(3, 2), id(0)).unwrap();
    let req = cmd.request(&mut gv);
    assert_eq!(dims(&req.shape), (3, 3));
    assert!(req.input_locations.is_empty());
    assert!(!req.trusted);
    for y in 0..3 {
        for x in 0..3 {
            let p = &req.shape.get_cell(&loc(y, x)).unwrap().peripheral;
            if (y, x) == (1, 2) {
                match p {
                    Some(Peripheral::Input { name, pwm_channel }) => {
                        assert_eq!(name, "water");
                        assert_eq!(*pwm_channel, 0);
                    }
                    other => panic!("unexpected peripheral {:?}", other),
                }
            } else {
                assert!(p.is_none());
            }
        }
    }
    assert!(cmd.input_droplets().is_empty());
    assert_eq!(cmd.output_droplets(), vec![id(0)]);
}

#[test]
fn pin_levels_switch_the_named_channels() {
    let levels = pin_levels(&vec![0, 5, 127, 5]);
    assert_eq!(levels.len(), N_CHANNELS);
    for (c, level) in levels.iter().enumerate() {
        let expected = if c == 0 || c == 5 || c == 127 { 1 } else { 0 };
        assert_eq!(*level, expected);
    }
    assert!(pin_levels(&vec![]).iter().all(|l| *l == 0));
}

fn channels_on(effect: &Effect) -> Vec<usize> {
    match effect {
        Effect::Pins { levels } => (0..levels.len()).filter(|c| levels[*c] == 1).collect(),
        other => panic!("unexpected effect {:?}", other),
    }
}

fn is_wait(effect: &Effect) -> bool {
    matches!(effect, Effect::Wait { millis } if *millis == PORT_STEP_MILLIS)
}

#[test]
fn input_run_and_finalize_dispense_the_droplet() {
    let mut grid = Grid::rectangle(4, 5);
    grid.set_peripheral(
        &loc(1, 3),
        Peripheral::Input {
            pwm_channel: 2,
            name: "water".to_string(),
        },
    );
    let gv = GridView::new(grid);
    let mut sv = gv.subview(
        vec![],
        Placement {
            offset: loc(1, 1),
            height: 1,
            width: 3,
        },
    );
    let mut cmd = Input::new("water".to_string(), 50, loc(1, 2), id(0)).unwrap();
    cmd.run(&mut sv);
    match &cmd.input {
        Some(Peripheral::Input { name, pwm_channel }) => {
            assert_eq!(name, "water");
            assert_eq!(*pwm_channel, 2);
        }
        other => panic!("unexpected peripheral {:?}", other),
    }
    let gv = sv.into_gridview();
    assert_eq!(gv.frames.len(), 1);
    let d = gv.snapshot.droplets[0];
    assert_eq!(d.id, id(0));
    assert_eq!(d.location, loc(1, 1));
    assert_eq!(d.dimensions, loc(1, 2));
    assert_eq!(d.volume, 50);

    let fx = cmd.finalize(&gv.snapshot);
    assert_eq!(fx.len(), 10);
    let all = vec![
        PORT_NEAR_LOWER,
        PORT_FAR_LOWER,
        PORT_NEAR_UPPER,
        PORT_FAR_UPPER,
    ];
    assert_eq!(all, vec![112, 113, 118, 119]);
    assert_eq!(channels_on(&fx[0]), all);
    match &fx[1] {
        Effect::Dispense { input, volume } => {
            assert!(matches!(input, Peripheral::Input { pwm_channel: 2, .. }));
            assert_eq!(*volume, 50);
        }
        other => panic!("unexpected effect {:?}", other),
    }
    assert_eq!(channels_on(&fx[2]), vec![PORT_FAR_UPPER]);
    assert!(is_wait(&fx[3]));
    assert_eq!(channels_on(&fx[4]), vec![PORT_FAR_LOWER]);
    assert!(is_wait(&fx[5]));
    assert_eq!(channels_on(&fx[6]), all);
    assert!(is_wait(&fx[7]));
    assert_eq!(channels_on(&fx[8]), vec![PORT_NEAR_UPPER]);
    assert!(is_wait(&fx[9]));
    assert_eq!(PORT_STEP_MILLIS, 1500);
    assert!(cmd.input.is_none());
}

#[test]
fn output_request_wants_a_port_under_the_middle_row() {
    let mut gv = board(9, 9, vec![droplet_at(0, 0, 0, 3, 2)]);
    let cmd = Output::new("waste".to_string(), id(0)).unwrap();
    let req = cmd.request(&mut gv);
    assert_eq!(dims(&req.shape), (3, 2));
    assert_eq!(req.input_locations, vec![loc(1, 0)]);
    assert!(!req.trusted);
    match &req.shape.get_cell(&loc(1, 0)).unwrap().peripheral {
        Some(Peripheral::Output { name, pwm_channel }) => {
            assert_eq!(name, "waste");
            assert_eq!(*pwm_channel, 0);
        }
        other => panic!("unexpected peripheral {:?}", other),
    }
    assert!(req.shape.get_cell(&loc(0, 0)).unwrap().peripheral.is_none());
    assert!(req.shape.get_cell(&loc(1, 1)).unwrap().peripheral.is_none());
    assert_eq!(cmd.input_droplets(), vec![id(0)]);
    assert!(cmd.output_droplets().is_empty());
}

#[test]
fn output_run_and_finalize_drain_the_droplet() {
    let mut grid = Grid::rectangle(3, 3);
    grid.set_peripheral(
        &loc(1, 0),
        Peripheral::Output {
            pwm_channel: 8,
            name: "waste".to_string(),
        },
    );
    let mut gv = GridView::new(grid);
    let mut d = droplet_at(0, 1, 0, 1, 1);
    d.volume = 77;
    gv.snapshot.droplets = vec![d];
    let mut sv = gv.subview(
        vec![id(0)],
        Placement {
            offset: loc(1, 0),
            height: 1,
            width: 1,
        },
    );
    let mut cmd = Output::new("waste".to_string(), id(0)).unwrap();
    cmd.run(&mut sv);
    assert_eq!(cmd.volume, Some(77));
    let gv = sv.into_gridview();
    assert!(gv.snapshot.droplets.is_empty());
    assert_eq!(gv.frames.len(), 1);
    assert!(gv.frames[0].is_empty());
    let fx = cmd.finalize(&gv.snapshot);
    assert_eq!(fx.len(), 1);
    match &fx[0] {
        Effect::Drain { output, volume } => {
            assert!(matches!(output, Peripheral::Output { pwm_channel: 8, .. }));
            assert_eq!(*volume, 77);
        }
        other => panic!("unexpected effect {:?}", other),
    }
    assert!(cmd.volume.is_none());
    assert!(cmd.output.is_none());
}

#[test]
fn plan_runs_a_command_and_tells_that_it_ran() {
    let mut gv = board(3, 3, vec![]);
    let mut cmd = Create::new(None, 5, None, id(0)).unwrap();
    assert_eq!(gv.plan(&mut cmd), Ok(true));
    assert_eq!(gv.snapshot.droplets.len(), 1);
    assert_eq!(gv.snapshot.droplets[0].location, loc(0, 0));
    // the tick that ends the planning, and the tick of the run
    assert_eq!(gv.frames.len(), 2);
    assert!(gv.frames[0].is_empty());
    assert_eq!(gv.frames[1].len(), 1);
}

#[test]
fn plan_skips_a_command_that_the_board_already_shows() {
    let mut gv = board(3, 3, vec![droplet_at(2, 0, 0, 1, 1)]);
    let mut cmd = Combine::new(id(0), id(1), id(2)).unwrap();
    assert_eq!(gv.plan(&mut cmd), Ok(false));
    assert_eq!(gv.snapshot.droplets.len(), 1);
    assert_eq!(gv.frames.len(), 0);
}

#[test]
fn plan_leaves_the_board_alone_where_it_fails() {
    let mut gv = board(
        1,
        5,
        vec![droplet_at(0, 0, 0, 1, 1), droplet_at(1, 0, 2, 1, 1)],
    );
    // no place: the destination touches the other droplet
    let mut cmd = Move::new(id(0), loc(0, 3), id(2)).unwrap();
    assert_eq!(gv.plan(&mut cmd), Err(PlanError::PlaceError));
    assert_eq!(gv.snapshot.droplets[0].location, loc(0, 0));
    assert_eq!(gv.frames.len(), 0);
    // no route: the other droplet bars the way
    let mut cmd = Move::new(id(0), loc(0, 4), id(2)).unwrap();
    assert_eq!(gv.plan(&mut cmd), Err(PlanError::RouteError));
    assert_eq!(gv.snapshot.droplets[0].location, loc(0, 0));
    assert_eq!(gv.snapshot.droplets[0].id, id(0));
    assert_eq!(gv.snapshot.droplets[0].destination, None);
    assert_eq!(gv.frames.len(), 0);
    // a merge that cannot be planned leaves the groups as they were
    let mut gv = board(
        1,
        3,
        vec![droplet_at(0, 0, 0, 1, 1), droplet_at(1, 0, 2, 1, 1)],
    );
    let mut cmd = Combine::new(id(0), id(1), id(2)).unwrap();
    assert_eq!(gv.plan(&mut cmd), Err(PlanError::PlaceError));
    assert_eq!(gv.snapshot.droplets[0].collision_group, 0);
    assert_eq!(gv.snapshot.droplets[1].collision_group, 1);
}
