use puddle_core::grid::droplet::{distance_between, SimpleBlob};
use puddle_core::grid::grid::{ParseError, MAX_DIM};
use puddle_core::grid::gridview::{GridSubView, Placement, N_CHANNELS};
use puddle_core::{
    Droplet, DropletId, Electrode, Grid, GridView, Location, Peripheral, Snapshot,
};

fn id(n: usize, pid: usize) -> DropletId {
    DropletId {
        id: n,
        process_id: pid,
    }
}

fn loc(y: i32, x: i32) -> Location {
    Location { y, x }
}

fn heater(pwm: u8) -> Peripheral {
    Peripheral::Heater {
        pwm_channel: pwm,
        spi_channel: 0,
    }
}

fn input_port(name: &str) -> Peripheral {
    Peripheral::Input {
        pwm_channel: 3,
        name: name.to_string(),
    }
}

fn output_port(name: &str) -> Peripheral {
    Peripheral::Output {
        pwm_channel: 4,
        name: name.to_string(),
    }
}

#[test]
fn location_sums_and_differences() {
    let a = Location::new(1, 2);
    let b = loc(3, -4);
    assert_eq!(a.plus(&b), loc(4, -2));
    assert_eq!(a.minus(&b), loc(-2, 6));
    assert_eq!(a.minus(&a), loc(0, 0));
}

#[test]
fn location_distance_counts_steps() {
    assert_eq!(loc(0, 0).distance_to(&loc(3, 4)), 7);
    assert_eq!(loc(3, 4).distance_to(&loc(0, 0)), 7);
    assert_eq!(loc(-2, 5).distance_to(&loc(1, 1)), 7);
    assert_eq!(loc(2, 2).distance_to(&loc(2, 2)), 0);
}

#[test]
fn location_neighbours() {
    let l = loc(5, 7);
    assert_eq!(l.north(), loc(4, 7));
    assert_eq!(l.south(), loc(6, 7));
    assert_eq!(l.west(), loc(5, 6));
    assert_eq!(l.east(), loc(5, 8));
}

#[test]
fn rectangle_numbers_pins_row_by_row() {
    let g = Grid::rectangle(2, 3);
    assert_eq!(g.max_height(), 2);
    assert_eq!(g.max_width(), 3);
    for y in 0..2 {
        for x in 0..3 {
            let cell = g.get_cell(&loc(y, x)).unwrap();
            assert_eq!(cell.pin, (y * 3 + x) as u32);
            assert!(cell.peripheral.is_none());
        }
    }
}

#[test]
fn rectangle_without_rows_has_no_cells() {
    let g = Grid::rectangle(0, 0);
    assert_eq!(g.max_height(), 0);
    assert_eq!(g.max_width(), 0);
    assert!(g.get_cell(&loc(0, 0)).is_none());
}

#[test]
fn get_cell_outside_is_nothing() {
    let mut g = Grid::rectangle(2, 3);
    assert!(g.get_cell(&loc(-1, 0)).is_none());
    assert!(g.get_cell(&loc(0, -1)).is_none());
    assert!(g.get_cell(&loc(2, 0)).is_none());
    assert!(g.get_cell(&loc(0, 3)).is_none());
    assert!(g.get_cell_mut(&loc(2, 0)).is_none());
    assert!(g.get_cell_mut(&loc(0, 3)).is_none());
    assert!(g.get_cell_mut(&loc(-1, -1)).is_none());
    assert!(g.get_cell(&loc(1, 2)).is_some());
}

#[test]
fn get_cell_mut_changes_one_cell() {
    let mut g = Grid::rectangle(2, 2);
    g.get_cell_mut(&loc(1, 0)).unwrap().peripheral = Some(heater(9));
    assert!(matches!(
        g.get_cell(&loc(1, 0)).unwrap().peripheral,
        Some(Peripheral::Heater { pwm_channel: 9, .. })
    ));
    assert_eq!(g.get_cell(&loc(1, 0)).unwrap().pin, 2);
    assert!(g.get_cell(&loc(0, 0)).unwrap().peripheral.is_none());
    assert!(g.get_cell(&loc(1, 1)).unwrap().peripheral.is_none());
}

#[test]
fn set_peripheral_binds_to_one_cell() {
    let mut g = Grid::rectangle(3, 3);
    g.set_peripheral(&loc(2, 1), input_port("water"));
    let cell = g.get_cell(&loc(2, 1)).unwrap();
    assert_eq!(cell.pin, 7);
    match &cell.peripheral {
        Some(Peripheral::Input { name, pwm_channel }) => {
            assert_eq!(name, "water");
            assert_eq!(*pwm_channel, 3);
        }
        other => panic!("unexpected peripheral {:?}", other),
    }
    assert!(g.get_cell(&loc(1, 2)).unwrap().peripheral.is_none());
}

#[test]
fn description_gives_the_grid() {
    let pins = vec![vec![10, 11, 12], vec![20, 21, 22]];
    let peripherals = vec![
        (loc(1, 2), heater(1)),
        (loc(0, 0), input_port("a")),
        (loc(1, 2), output_port("late")),
    ];
    let g = Grid::from_description(&pins, &peripherals).unwrap();
    assert_eq!(g.max_height(), 2);
    assert_eq!(g.max_width(), 3);
    assert_eq!(g.get_cell(&loc(0, 1)).unwrap().pin, 11);
    assert_eq!(g.get_cell(&loc(1, 0)).unwrap().pin, 20);
    assert!(g.get_cell(&loc(0, 1)).unwrap().peripheral.is_none());
    assert!(matches!(
        g.get_cell(&loc(0, 0)).unwrap().peripheral,
        Some(Peripheral::Input { .. })
    ));
    // the later entry for a cell counts
    match &g.get_cell(&loc(1, 2)).unwrap().peripheral {
        Some(Peripheral::Output { name, .. }) => assert_eq!(name, "late"),
        other => panic!("unexpected peripheral {:?}", other),
    }
}

#[test]
fn description_with_unequal_rows_is_ragged() {
    let pins = vec![vec![0, 1], vec![2, 3], vec![4], vec![5]];
    let r = Grid::from_description(&pins, &vec![]);
    assert_eq!(r.err(), Some(ParseError::Ragged { row: 2 }));
}

#[test]
fn description_with_too_many_rows_is_too_large() {
    let pins: Vec<Vec<u32>> = vec![vec![]; MAX_DIM + 1];
    let r = Grid::from_description(&pins, &vec![]);
    assert_eq!(r.err(), Some(ParseError::TooLarge));
    let wide: Vec<Vec<u32>> = vec![vec![0; MAX_DIM + 1]];
    let r = Grid::from_description(&wide, &vec![]);
    assert_eq!(r.err(), Some(ParseError::TooLarge));
}

#[test]
fn description_with_peripheral_off_the_grid() {
    let pins = vec![vec![0, 1], vec![2, 3]];
    let peripherals = vec![
        (loc(0, 0), heater(0)),
        (loc(2, 0), heater(0)),
        (loc(0, -1), heater(0)),
    ];
    let r = Grid::from_description(&pins, &peripherals);
    assert_eq!(r.err(), Some(ParseError::OffGrid { entry: 1 }));
}

#[test]
fn peripherals_match_by_kind_and_name() {
    assert!(heater(1).is_compatible(&heater(200)));
    assert!(input_port("water").is_compatible(&input_port("water")));
    assert!(!input_port("water").is_compatible(&input_port("oil")));
    assert!(output_port("waste").is_compatible(&output_port("waste")));
    assert!(!output_port("waste").is_compatible(&output_port("water")));
    assert!(!input_port("water").is_compatible(&output_port("water")));
    assert!(!heater(1).is_compatible(&input_port("x")));
    assert!(!output_port("x").is_compatible(&heater(1)));
}

#[test]
fn duplicate_keeps_the_peripheral() {
    match input_port("buffer").duplicate() {
        Peripheral::Input { pwm_channel, name } => {
            assert_eq!(pwm_channel, 3);
            assert_eq!(name, "buffer");
        }
        other => panic!("unexpected peripheral {:?}", other),
    }
    assert!(matches!(
        heater(7).duplicate(),
        Peripheral::Heater {
            pwm_channel: 7,
            spi_channel: 0
        }
    ));
}

#[test]
fn a_cell_without_placeholder_is_served_by_any_cell() {
    let plain = Electrode {
        pin: 0,
        peripheral: None,
    };
    let hot = Electrode {
        pin: 1,
        peripheral: Some(heater(0)),
    };
    let port = Electrode {
        pin: 2,
        peripheral: Some(input_port("w")),
    };
    assert!(plain.is_compatible(&plain));
    assert!(plain.is_compatible(&hot));
    assert!(hot.is_compatible(&hot));
    assert!(!hot.is_compatible(&plain));
    assert!(!hot.is_compatible(&port));
    assert!(port.is_compatible(&port));
}

fn droplet_at(n: usize, y: i32, x: i32, h: i32, w: i32) -> Droplet {
    Droplet::new(id(n, 0), 100, loc(y, x), loc(h, w))
}

#[test]
fn new_droplet_is_idle_in_its_own_group() {
    let d = Droplet::new(id(7, 3), 42, loc(1, 2), loc(3, 4));
    assert_eq!(d.id, id(7, 3));
    assert_eq!(d.volume, 42);
    assert_eq!(d.location, loc(1, 2));
    assert_eq!(d.dimensions, loc(3, 4));
    assert_eq!(d.collision_group, 7);
    assert!(d.destination.is_none());
    assert!(!d.pinned);
}

#[test]
fn info_tells_name_place_size_and_volume() {
    let d = Droplet::new(id(7, 3), 42, loc(1, 2), loc(3, 4));
    let i = d.info();
    assert_eq!(i.id, id(7, 3));
    assert_eq!(i.location, loc(1, 2));
    assert_eq!(i.dimensions, loc(3, 4));
    assert_eq!(i.volume, 42);
}

#[test]
fn blob_becomes_droplet() {
    let blob = SimpleBlob {
        location: loc(2, 3),
        dimensions: loc(1, 2),
        volume: 9,
    };
    let d = blob.to_droplet(id(5, 1));
    assert_eq!(d.id, id(5, 1));
    assert_eq!(d.location, loc(2, 3));
    assert_eq!(d.dimensions, loc(1, 2));
    assert_eq!(d.volume, 9);
    assert_eq!(d.collision_group, 5);
    assert!(d.destination.is_none());
}

#[test]
fn collision_distance_counts_free_cells() {
    let a = droplet_at(0, 0, 0, 1, 1);
    // one free column between
    assert_eq!(a.collision_distance(&droplet_at(1, 0, 2, 1, 1)), 1);
    // side by side
    assert_eq!(a.collision_distance(&droplet_at(1, 0, 1, 1, 1)), 0);
    // corner to corner
    assert_eq!(a.collision_distance(&droplet_at(1, 1, 1, 1, 1)), 0);
    // on top of each other
    assert_eq!(a.collision_distance(&droplet_at(1, 0, 0, 1, 1)), -1);
    // three free rows, overlapping columns
    assert_eq!(a.collision_distance(&droplet_at(1, 4, 0, 2, 2)), 3);
    // the larger gap counts
    assert_eq!(a.collision_distance(&droplet_at(1, 3, 6, 1, 1)), 5);
    // either way round
    assert_eq!(droplet_at(1, 3, 6, 1, 1).collision_distance(&a), 5);
    assert_eq!(
        distance_between(&loc(0, 0), &loc(2, 2), &loc(0, 3), &loc(1, 1)),
        1
    );
}

#[test]
fn footprint_covers_its_cells() {
    let d = droplet_at(0, 1, 2, 2, 3);
    assert!(d.covers_cell(1, 2));
    assert!(d.covers_cell(2, 4));
    assert!(!d.covers_cell(0, 2));
    assert!(!d.covers_cell(3, 2));
    assert!(!d.covers_cell(1, 1));
    assert!(!d.covers_cell(1, 5));
}

fn snapshot_of(ds: Vec<Droplet>) -> Snapshot {
    Snapshot { droplets: ds }
}

#[test]
fn snapshot_finds_droplets_by_name() {
    let s = snapshot_of(vec![droplet_at(4, 0, 0, 1, 1), droplet_at(9, 0, 2, 1, 1)]);
    assert_eq!(s.position(&id(4, 0)), Some(0));
    assert_eq!(s.position(&id(9, 0)), Some(1));
    assert_eq!(s.position(&id(9, 1)), None);
    assert!(s.contains_key(&id(9, 0)));
    assert!(!s.contains_key(&id(5, 0)));
    assert_eq!(s.get(&id(9, 0)).location, loc(0, 2));
    assert_eq!(Snapshot::new().droplets.len(), 0);
}

#[test]
fn droplet_info_is_told_by_process() {
    let mut a = droplet_at(0, 0, 0, 1, 1);
    a.id.process_id = 1;
    let mut b = droplet_at(1, 0, 2, 1, 1);
    b.id.process_id = 2;
    let mut c = droplet_at(2, 0, 4, 1, 1);
    c.id.process_id = 1;
    let s = snapshot_of(vec![a, b, c]);
    let own = s.droplet_info(Some(1));
    assert_eq!(own.len(), 2);
    assert_eq!(own[0], a.info());
    assert_eq!(own[1], c.info());
    assert_eq!(s.droplet_info(Some(2)), vec![b.info()]);
    assert_eq!(s.droplet_info(Some(3)), vec![]);
    assert_eq!(s.droplet_info(None), vec![a.info(), b.info(), c.info()]);
}

#[test]
fn get_collision_names_a_pair() {
    let apart = snapshot_of(vec![droplet_at(0, 0, 0, 1, 1), droplet_at(1, 0, 2, 1, 1)]);
    assert_eq!(apart.get_collision(), None);
    let touching = snapshot_of(vec![
        droplet_at(0, 0, 0, 1, 1),
        droplet_at(1, 3, 3, 1, 1),
        droplet_at(2, 4, 4, 1, 1),
    ]);
    assert_eq!(touching.get_collision(), Some((1, 2)));
    // droplets of one group may touch
    let mut x = droplet_at(0, 0, 0, 1, 1);
    let mut y = droplet_at(1, 0, 1, 1, 1);
    x.collision_group = 5;
    y.collision_group = 5;
    assert_eq!(snapshot_of(vec![x, y]).get_collision(), None);
}

#[test]
fn tick_records_a_frame() {
    let mut gv = GridView::new(Grid::rectangle(3, 3));
    assert_eq!(gv.frames.len(), 0);
    gv.tick();
    assert_eq!(gv.frames.len(), 1);
    assert_eq!(gv.frames[0].len(), 0);
    gv.snapshot.droplets.push(droplet_at(0, 1, 1, 1, 1));
    gv.tick();
    assert_eq!(gv.frames.len(), 2);
    assert_eq!(gv.frames[1].len(), 1);
    assert_eq!(gv.frames[1][0].location, loc(1, 1));
    assert_eq!(gv.snapshot().droplets.len(), 1);
}

#[test]
fn placement_translates_positions() {
    let p = Placement {
        offset: loc(2, 3),
        height: 2,
        width: 4,
    };
    assert_eq!(p.get(&loc(0, 0)), Some(loc(2, 3)));
    assert_eq!(p.get(&loc(1, 3)), Some(loc(3, 6)));
    assert_eq!(p.get(&loc(2, 0)), None);
    assert_eq!(p.get(&loc(0, 4)), None);
    assert_eq!(p.get(&loc(-1, 0)), None);
    assert_eq!(p.find(&loc(2, 3)), Some(loc(0, 0)));
    assert_eq!(p.find(&loc(3, 6)), Some(loc(1, 3)));
    assert_eq!(p.find(&loc(1, 3)), None);
    assert_eq!(p.find(&loc(4, 3)), None);
    assert_eq!(p.find(&loc(2, 7)), None);
}

fn subview(rows: usize, cols: usize, p: Placement) -> GridSubView {
    GridView::new(Grid::rectangle(rows, cols)).subview(vec![], p)
}

#[test]
fn subview_inserts_at_the_place_of_its_region() {
    let mut sv = subview(
        5,
        5,
        Placement {
            offset: loc(1, 2),
            height: 3,
            width: 3,
        },
    );
    sv.insert(droplet_at(0, 1, 1, 1, 1));
    assert_eq!(sv.ids, vec![id(0, 0)]);
    assert_eq!(sv.get(&id(0, 0)).location, loc(2, 3));
    assert_eq!(sv.backing_gridview.snapshot.droplets.len(), 1);
    // what leaves has its location given as a position of the region again
    let d = sv.remove(&id(0, 0));
    assert_eq!(d.location, loc(1, 1));
    assert_eq!(d.id, id(0, 0));
    assert!(sv.ids.is_empty());
    assert!(sv.backing_gridview.snapshot.droplets.is_empty());
}

#[test]
fn subview_moves_step_by_step() {
    let mut sv = subview(
        5,
        5,
        Placement {
            offset: loc(1, 1),
            height: 3,
            width: 3,
        },
    );
    sv.insert(droplet_at(0, 1, 1, 1, 1));
    sv.move_south(id(0, 0));
    assert_eq!(sv.get(&id(0, 0)).location, loc(3, 2));
    sv.move_east(id(0, 0));
    assert_eq!(sv.get(&id(0, 0)).location, loc(3, 3));
    sv.move_north(id(0, 0));
    assert_eq!(sv.get(&id(0, 0)).location, loc(2, 3));
    sv.move_west(id(0, 0));
    assert_eq!(sv.get(&id(0, 0)).location, loc(2, 2));
    sv.tick();
    let gv = sv.into_gridview();
    assert_eq!(gv.frames.len(), 1);
    assert_eq!(gv.frames[0][0].location, loc(2, 2));
}

#[test]
fn subview_shows_the_electrodes_of_its_region() {
    let mut board = Grid::rectangle(4, 4);
    board.set_peripheral(&loc(2, 3), heater(5));
    let sv = GridView::new(board).subview(
        vec![],
        Placement {
            offset: loc(1, 2),
            height: 2,
            width: 2,
        },
    );
    assert_eq!(sv.get_electrode(&loc(0, 0)).unwrap().pin, 6);
    assert!(sv.get_electrode(&loc(1, 1)).unwrap().peripheral.is_some());
    assert_eq!(sv.get_electrode(&loc(1, 1)).unwrap().pin, 11);
    assert!(sv.get_electrode(&loc(2, 0)).is_none());
    assert!(sv.get_electrode(&loc(0, 2)).is_none());
}

#[test]
fn active_channels_are_the_pins_under_the_droplets() {
    let g = Grid::rectangle(3, 4);
    let frame = vec![droplet_at(0, 0, 1, 1, 2), droplet_at(1, 2, 3, 1, 1)];
    let levels = g.active_channels(&frame);
    assert_eq!(levels.len(), N_CHANNELS);
    for (c, level) in levels.iter().enumerate() {
        let expected = if c == 1 || c == 2 || c == 11 { 1 } else { 0 };
        assert_eq!(*level, expected, "channel {}", c);
    }
    assert!(g.active_channels(&vec![]).iter().all(|l| *l == 0));
}

#[test]
fn a_pin_that_is_no_channel_is_never_switched() {
    let pins = vec![vec![5, 500], vec![127, 128]];
    let g = Grid::from_description(&pins, &vec![]).unwrap();
    let frame = vec![droplet_at(0, 0, 0, 2, 2)];
    let levels = g.active_channels(&frame);
    assert_eq!(levels.len(), N_CHANNELS);
    let on: Vec<usize> = (0..N_CHANNELS).filter(|c| levels[*c] == 1).collect();
    assert_eq!(on, vec![5, 127]);
}
