use puddle_core::command::Effect;
use puddle_core::grid::gridview::N_CHANNELS;
use puddle_core::{
    DropletId, DropletInfo, Grid, Location, Manager, Peripheral, PlanError, ProcessId,
    PuddleError,
};

fn loc(y: i32, x: i32) -> Location {
    Location { y, x }
}

fn manager(rows: usize, cols: usize) -> (Manager, ProcessId) {
    let mut man = Manager::new(Grid::rectangle(rows, cols));
    let p = man.new_process("first".to_string()).unwrap();
    (man, p)
}

fn place_error<T>() -> Result<T, PuddleError> {
    Err(PuddleError::PlanError(PlanError::PlaceError))
}

fn route_error<T>() -> Result<T, PuddleError> {
    Err(PuddleError::PlanError(PlanError::RouteError))
}

fn find(info: &[DropletInfo], id: DropletId) -> DropletInfo {
    *info.iter().find(|i| i.id == id).unwrap()
}

#[test]
fn a_new_manager_has_nothing() {
    let mut man = Manager::new(Grid::rectangle(2, 2));
    assert_eq!(man.next_droplet_id, 0);
    assert!(man.processes.is_empty());
    assert!(man.take_effects().is_empty());
    assert!(man.take_frames().is_empty());
    assert_eq!(man.visualizer_droplet_info().unwrap(), vec![]);
    assert!(!man.has_open(0));
}

#[test]
fn processes_are_numbered_as_they_come() {
    let mut man = Manager::new(Grid::rectangle(2, 2));
    assert_eq!(man.new_process("a".to_string()), Ok(0));
    assert_eq!(man.new_process("b".to_string()), Ok(1));
    assert_eq!(man.processes[1].name, "b");
    assert_eq!(man.processes[1].id, 1);
    assert!(man.has_open(0));
    assert!(man.has_open(1));
    assert!(!man.has_open(2));
}

#[test]
fn a_closed_process_submits_nothing() {
    let (mut man, p) = manager(5, 5);
    let q = man.new_process("second".to_string()).unwrap();
    let d = man.create(p, None, 5, None).unwrap();
    assert_eq!(man.close_process(p), Ok(()));
    assert!(!man.has_open(p));
    assert!(man.has_open(q));
    assert_eq!(
        man.close_process(p),
        Err(PuddleError::NonExistentProcess(p))
    );
    assert_eq!(
        man.create(p, None, 5, None),
        Err(PuddleError::NonExistentProcess(p))
    );
    assert_eq!(man.flush(p), Err(PuddleError::NonExistentProcess(p)));
    assert_eq!(
        man.move_droplet(p, d, loc(3, 3)),
        Err(PuddleError::NonExistentProcess(p))
    );
    // its droplets stay on the board
    assert_eq!(man.visualizer_droplet_info().unwrap().len(), 1);
    assert!(man.create(q, None, 5, None).is_ok());
}

#[test]
fn an_unknown_process_is_turned_away() {
    let (mut man, p) = manager(5, 5);
    let d = man.create(p, None, 5, None).unwrap();
    let nobody = 17;
    let e = Err(PuddleError::NonExistentProcess(nobody));
    assert_eq!(man.create(nobody, None, 1, None), e);
    assert_eq!(man.input(nobody, "w".to_string(), 1, loc(1, 1)), e);
    assert_eq!(man.move_droplet(nobody, d, loc(0, 0)), e);
    assert_eq!(man.mix(nobody, d, d), e);
    assert_eq!(man.combine_into(nobody, d, d), e);
    assert_eq!(man.heat(nobody, d, 1, 1), e);
    assert_eq!(
        man.split(nobody, d),
        Err(PuddleError::NonExistentProcess(nobody))
    );
    assert_eq!(
        man.output(nobody, "w".to_string(), d),
        Err(PuddleError::NonExistentProcess(nobody))
    );
    assert_eq!(
        man.flush(nobody),
        Err(PuddleError::NonExistentProcess(nobody))
    );
    assert_eq!(
        man.droplet_info(nobody),
        Err(PuddleError::NonExistentProcess(nobody))
    );
    assert_eq!(
        man.close_process(nobody),
        Err(PuddleError::NonExistentProcess(nobody))
    );
    assert_eq!(man.next_droplet_id, 1);
}

#[test]
fn a_process_cannot_touch_what_it_does_not_own() {
    let (mut man, p) = manager(9, 9);
    let q = man.new_process("second".to_string()).unwrap();
    let mine = man.create(p, None, 5, None).unwrap();
    let theirs = man.create(q, None, 7, None).unwrap();
    let gone = DropletId {
        id: 99,
        process_id: p,
    };
    let e = |d| Err(PuddleError::NonExistentDropletId(d));
    assert_eq!(man.move_droplet(p, theirs, loc(5, 5)), e(theirs));
    assert_eq!(man.move_droplet(p, gone, loc(5, 5)), e(gone));
    assert_eq!(man.heat(p, theirs, 1, 1), e(theirs));
    assert_eq!(
        man.split(p, theirs),
        Err(PuddleError::NonExistentDropletId(theirs))
    );
    assert_eq!(
        man.output(p, "w".to_string(), theirs),
        Err(PuddleError::NonExistentDropletId(theirs))
    );
    assert_eq!(man.mix(p, theirs, mine), e(theirs));
    assert_eq!(man.mix(p, mine, theirs), e(theirs));
    assert_eq!(man.combine_into(p, mine, gone), e(gone));
    // a droplet cannot be mixed with itself
    assert_eq!(man.mix(p, mine, mine), e(mine));
    assert_eq!(man.combine_into(p, mine, mine), e(mine));
    // nothing has happened
    let all = man.visualizer_droplet_info().unwrap();
    assert_eq!(all.len(), 2);
    assert_eq!(find(&all, mine).location, loc(0, 0));
    assert_eq!(find(&all, theirs).location, loc(0, 2));
    assert_eq!(man.next_droplet_id, 2);
}

#[test]
fn sequence_numbers_run_out() {
    let (mut man, p) = manager(9, 9);
    let d = man.create(p, None, 5, None).unwrap();
    let e = || Err(PuddleError::DropletIdsExhausted);
    man.next_droplet_id = usize::MAX;
    assert_eq!(man.create(p, None, 5, None), e());
    assert_eq!(man.input(p, "w".to_string(), 5, loc(1, 1)), e());
    assert_eq!(man.move_droplet(p, d, loc(4, 4)), e());
    assert_eq!(man.heat(p, d, 1, 1), e());
    assert_eq!(man.split(p, d), Err(PuddleError::DropletIdsExhausted));
    man.next_droplet_id = usize::MAX - 1;
    // one number is not enough for two halves, nor for a mix
    assert_eq!(man.split(p, d), Err(PuddleError::DropletIdsExhausted));
    let d2 = man.create(p, None, 5, None).unwrap();
    assert_eq!(d2.id, usize::MAX - 1);
    assert_eq!(man.next_droplet_id, usize::MAX);
    assert_eq!(man.mix(p, d, d2), e());
    assert_eq!(man.combine_into(p, d, d2), e());
}

#[test]
fn created_droplets_are_named_in_sequence() {
    let (mut man, p) = manager(9, 9);
    let q = man.new_process("second".to_string()).unwrap();
    let a = man.create(p, None, 5, None).unwrap();
    let b = man.create(q, None, 5, None).unwrap();
    let c = man.create(p, None, 5, None).unwrap();
    assert_eq!(
        a,
        DropletId {
            id: 0,
            process_id: p
        }
    );
    assert_eq!(
        b,
        DropletId {
            id: 1,
            process_id: q
        }
    );
    assert_eq!(
        c,
        DropletId {
            id: 2,
            process_id: p
        }
    );
}

#[test]
fn create_goes_to_the_first_free_place() {
    let (mut man, p) = manager(3, 5);
    let a = man.create(p, None, 5, None).unwrap();
    let b = man.create(p, None, 6, None).unwrap();
    let c = man.create(p, None, 7, None).unwrap();
    let d = man.create(p, None, 8, Some(loc(1, 2))).unwrap();
    let info = man.flush(p).unwrap();
    assert_eq!(find(&info, a).location, loc(0, 0));
    assert_eq!(find(&info, b).location, loc(0, 2));
    assert_eq!(find(&info, c).location, loc(0, 4));
    assert_eq!(find(&info, d).location, loc(2, 0));
    assert_eq!(find(&info, d).dimensions, loc(1, 2));
    assert_eq!(find(&info, d).volume, 8);
    // in the order in which they stand on the board
    let ids: Vec<DropletId> = info.iter().map(|i| i.id).collect();
    assert_eq!(ids, vec![a, b, c, d]);
}

#[test]
fn create_at_a_location_goes_there_or_nowhere() {
    let (mut man, p) = manager(4, 4);
    let a = man.create(p, Some(loc(1, 1)), 5, Some(loc(2, 2))).unwrap();
    assert_eq!(find(&man.flush(p).unwrap(), a).location, loc(1, 1));
    // on top of the first
    assert_eq!(man.create(p, Some(loc(2, 2)), 5, None), place_error());
    // beside it, corner to corner
    assert_eq!(man.create(p, Some(loc(0, 0)), 5, None), place_error());
    assert_eq!(man.create(p, Some(loc(3, 3)), 5, None), place_error());
    // off the board
    assert_eq!(man.create(p, Some(loc(4, 0)), 5, None), place_error());
    assert_eq!(man.create(p, Some(loc(-1, 0)), 5, None), place_error());
    assert_eq!(
        man.create(p, Some(loc(3, 0)), 5, Some(loc(2, 1))),
        place_error()
    );
    assert_eq!(man.flush(p).unwrap().len(), 1);
    assert_eq!(man.next_droplet_id, 1);
}

#[test]
fn a_footprint_without_cells_has_no_place() {
    let (mut man, p) = manager(4, 4);
    assert_eq!(man.create(p, None, 5, Some(loc(0, 1))), place_error());
    assert_eq!(man.create(p, None, 5, Some(loc(1, 0))), place_error());
    assert_eq!(man.create(p, None, 5, Some(loc(-1, 2))), place_error());
    assert_eq!(man.create(p, None, 5, Some(loc(5, 1))), place_error());
    assert_eq!(man.create(p, None, 5, Some(loc(1, 40_000))), place_error());
    assert_eq!(
        man.input(p, "w".to_string(), 5, loc(0, 1)),
        place_error()
    );
    assert_eq!(
        man.input(p, "w".to_string(), 5, loc(1, 40_000)),
        place_error()
    );
    assert!(man.take_frames().is_empty());
}

#[test]
fn create_ticks_twice() {
    let (mut man, p) = manager(4, 4);
    let a = man.create(p, None, 5, None).unwrap();
    let frames = man.take_frames();
    assert_eq!(frames.len(), 2);
    assert!(frames[0].is_empty());
    assert_eq!(frames[1].len(), 1);
    assert_eq!(frames[1][0].id, a);
    assert!(man.take_frames().is_empty());
    assert!(man.take_effects().is_empty());
}

#[test]
fn flush_reports_and_changes_nothing() {
    let (mut man, p) = manager(4, 4);
    let a = man.create(p, None, 5, None).unwrap();
    man.take_frames();
    let first = man.flush(p).unwrap();
    let second = man.flush(p).unwrap();
    assert_eq!(first, second);
    assert_eq!(first.len(), 1);
    assert_eq!(first[0].id, a);
    assert_eq!(man.droplet_info(p).unwrap(), first);
    // two ticks for each flush
    let frames = man.take_frames();
    assert_eq!(frames.len(), 6);
    assert!(frames.iter().all(|f| f.len() == 1 && f[0].id == a));
    // and one report
    let fx = man.take_effects();
    assert_eq!(fx.len(), 3);
    for e in fx {
        match e {
            Effect::Report { pid, result } => {
                assert_eq!(pid, p);
                assert_eq!(result.unwrap(), first);
            }
            other => panic!("unexpected effect {:?}", other),
        }
    }
}

#[test]
fn a_board_without_cells_cannot_even_flush() {
    let (mut man, p) = manager(0, 0);
    assert_eq!(man.flush(p), place_error());
    assert_eq!(man.create(p, None, 5, None), place_error());
    let fx = man.take_effects();
    assert_eq!(fx.len(), 1);
    match &fx[0] {
        Effect::Report { pid, result } => {
            assert_eq!(*pid, p);
            assert_eq!(result.as_ref().err(), Some(&PlanError::PlaceError));
        }
        other => panic!("unexpected effect {:?}", other),
    }
}

#[test]
fn each_process_sees_its_own_droplets() {
    let (mut man, p) = manager(9, 9);
    let q = man.new_process("second".to_string()).unwrap();
    let a = man.create(p, None, 5, None).unwrap();
    let c = man.create(p, None, 7, None).unwrap();
    let b = man.create(q, None, 6, None).unwrap();
    let before = man.flush(q).unwrap();
    assert_eq!(before.len(), 1);
    assert_eq!(before[0].id, b);
    // whatever the first process does, the second sees what it saw
    let ac = man.mix(p, a, c).unwrap();
    assert_eq!(man.flush(q).unwrap(), before);
    let (l, r) = man.split(p, ac).unwrap();
    assert_eq!(man.flush(q).unwrap(), before);
    let l2 = man.move_droplet(p, l, loc(7, 8)).unwrap();
    assert_eq!(man.flush(q).unwrap(), before);
    let own: Vec<DropletId> = man.flush(p).unwrap().iter().map(|i| i.id).collect();
    assert_eq!(own, vec![r, l2]);
    assert!(man
        .flush(p)
        .unwrap()
        .iter()
        .all(|i| i.id.process_id == p));
    assert_eq!(man.visualizer_droplet_info().unwrap().len(), 3);
}

#[test]
fn droplets_never_touch() {
    let (mut man, p) = manager(7, 7);
    let mut made = vec![];
    while let Ok(d) = man.create(p, None, 5, None) {
        made.push(d);
    }
    // every second cell of every second row
    assert_eq!(made.len(), 16);
    assert_eq!(man.create(p, None, 5, None), place_error());
    let all = man.visualizer_droplet_info().unwrap();
    for a in &all {
        for b in &all {
            if a.id != b.id {
                let dy = (a.location.y - b.location.y).abs();
                let dx = (a.location.x - b.location.x).abs();
                assert!(dy >= 2 || dx >= 2);
            }
        }
    }
}

#[test]
fn move_walks_cell_by_cell() {
    let (mut man, p) = manager(3, 4);
    let a = man.create(p, Some(loc(0, 0)), 5, None).unwrap();
    man.take_frames();
    let b = man.move_droplet(p, a, loc(2, 1)).unwrap();
    assert_eq!(
        b,
        DropletId {
            id: 1,
            process_id: p
        }
    );
    let frames = man.take_frames();
    let places: Vec<Location> = frames.iter().map(|f| f[0].location).collect();
    // two ticks between the three steps, the tick that ends the routing,
    // and the tick of the run
    assert_eq!(places, vec![loc(1, 0), loc(2, 0), loc(2, 1), loc(2, 1)]);
    assert_eq!(frames[2][0].id, a);
    assert_eq!(frames[3][0].id, b);
    let info = man.flush(p).unwrap();
    assert_eq!(info.len(), 1);
    assert_eq!(info[0].id, b);
    assert_eq!(info[0].volume, 5);
}

#[test]
fn move_fails_without_place_or_route() {
    let (mut man, p) = manager(1, 5);
    let a = man.create(p, Some(loc(0, 0)), 5, None).unwrap();
    let _b = man.create(p, Some(loc(0, 2)), 5, None).unwrap();
    man.take_frames();
    assert_eq!(man.move_droplet(p, a, loc(0, 1)), place_error());
    assert_eq!(man.move_droplet(p, a, loc(0, 5)), place_error());
    assert_eq!(man.move_droplet(p, a, loc(0, 4)), route_error());
    let info = man.flush(p).unwrap();
    assert_eq!(find(&info, a).location, loc(0, 0));
    assert_eq!(man.next_droplet_id, 2);
    // only the flush has ticked
    assert_eq!(man.take_frames().len(), 2);
}

#[test]
fn a_move_to_where_the_droplet_stands_only_renames_it() {
    let (mut man, p) = manager(3, 3);
    let a = man.create(p, Some(loc(1, 1)), 5, None).unwrap();
    let b = man.move_droplet(p, a, loc(1, 1)).unwrap();
    let info = man.flush(p).unwrap();
    assert_eq!(info.len(), 1);
    assert_eq!(info[0].id, b);
    assert_eq!(info[0].location, loc(1, 1));
}

#[test]
fn mix_adds_volumes_and_stacks_footprints() {
    let (mut man, p) = manager(9, 9);
    let a = man.create(p, None, 5, Some(loc(1, 3))).unwrap();
    let b = man.create(p, None, 7, Some(loc(2, 2))).unwrap();
    let ab = man.mix(p, a, b).unwrap();
    assert_eq!(
        ab,
        DropletId {
            id: 3,
            process_id: p
        }
    );
    let info = man.flush(p).unwrap();
    assert_eq!(info.len(), 1);
    assert_eq!(info[0].id, ab);
    assert_eq!(info[0].volume, 12);
    assert_eq!(info[0].dimensions, loc(3, 3));
    assert_eq!(info[0].location, loc(0, 0));
    assert_eq!(man.next_droplet_id, 4);
}

#[test]
fn mix_of_large_volumes_stays_at_the_largest_count() {
    let (mut man, p) = manager(9, 9);
    let a = man.create(p, None, u64::MAX - 1, None).unwrap();
    let b = man.create(p, None, 5, None).unwrap();
    let ab = man.mix(p, a, b).unwrap();
    assert_eq!(find(&man.flush(p).unwrap(), ab).volume, u64::MAX);
}

#[test]
fn mix_is_all_or_nothing() {
    // the two can be merged on this board, but the merged droplet has no
    // room to be jostled
    let (mut man, p) = manager(3, 1);
    let a = man.create(p, Some(loc(0, 0)), 5, None).unwrap();
    let b = man.create(p, Some(loc(2, 0)), 7, None).unwrap();
    man.take_frames();
    assert_eq!(man.mix(p, a, b), place_error());
    let info = man.flush(p).unwrap();
    assert_eq!(info.len(), 2);
    assert_eq!(find(&info, a).location, loc(0, 0));
    assert_eq!(find(&info, a).volume, 5);
    assert_eq!(find(&info, b).location, loc(2, 0));
    assert_eq!(man.next_droplet_id, 2);
    assert_eq!(man.take_frames().len(), 2);
    // there is no room above the first droplet to merge the second into it
    assert_eq!(man.combine_into(p, a, b), place_error());
    // but there is above the second
    let ba = man.combine_into(p, b, a).unwrap();
    let info = man.flush(p).unwrap();
    assert_eq!(info.len(), 1);
    assert_eq!(info[0].id, ba);
    assert_eq!(info[0].location, loc(1, 0));
    assert_eq!(info[0].dimensions, loc(2, 1));
    assert_eq!(info[0].volume, 12);
}

#[test]
fn droplets_go_around_those_of_other_processes() {
    // the droplet of the second process lies between the two that the first
    // wants to mix
    let (mut man, p) = manager(9, 9);
    let q = man.new_process("second".to_string()).unwrap();
    let a = man.create(p, None, 5, None).unwrap();
    let b = man.create(q, None, 6, None).unwrap();
    let c = man.create(p, None, 7, None).unwrap();
    man.take_frames();
    let ac = man.mix(p, a, c).unwrap();
    let info = man.flush(p).unwrap();
    assert_eq!(info.len(), 1);
    assert_eq!(info[0].id, ac);
    assert_eq!(info[0].volume, 12);
    let other = man.flush(q).unwrap();
    assert_eq!(other.len(), 1);
    assert_eq!(other[0].id, b);
    assert_eq!(other[0].location, loc(0, 2));
    // at no tick did a droplet of the first touch that of the second
    for f in man.take_frames() {
        let theirs = f.iter().find(|d| d.id == b).unwrap();
        for d in f.iter().filter(|d| d.id != b) {
            assert!(d.collision_distance(theirs) > 0);
        }
    }
}

#[test]
fn a_droplet_in_the_way_bars_the_route() {
    // the droplet of the second process lies between the two that the first
    // wants to mix
    let (mut man, p) = manager(1, 5);
    let q = man.new_process("second".to_string()).unwrap();
    let a = man.create(p, None, 5, None).unwrap();
    let _b = man.create(q, None, 6, None).unwrap();
    let c = man.create(p, None, 7, None).unwrap();
    assert_eq!(man.combine_into(p, a, c), place_error());
    assert_eq!(man.move_droplet(p, a, loc(0, 4)), place_error());
    let all = man.visualizer_droplet_info().unwrap();
    assert_eq!(all.len(), 3);
    assert_eq!(find(&all, a).location, loc(0, 0));
    assert_eq!(find(&all, c).location, loc(0, 4));
}

#[test]
fn combine_into_leaves_the_first_where_it_is() {
    let (mut man, p) = manager(6, 6);
    let a = man.create(p, Some(loc(3, 1)), 5, Some(loc(2, 1))).unwrap();
    let b = man.create(p, Some(loc(0, 4)), 7, Some(loc(1, 2))).unwrap();
    man.take_frames();
    let ab = man.combine_into(p, a, b).unwrap();
    let info = man.flush(p).unwrap();
    assert_eq!(info.len(), 1);
    assert_eq!(info[0].id, ab);
    assert_eq!(info[0].location, loc(2, 1));
    assert_eq!(info[0].dimensions, loc(3, 2));
    assert_eq!(info[0].volume, 12);
    // the first has not moved in any frame
    let frames = man.take_frames();
    for f in &frames {
        if let Some(d) = f.iter().find(|d| d.id == a) {
            assert_eq!(d.location, loc(3, 1));
        }
    }
}

#[test]
fn combine_into_needs_room_above_the_first() {
    let (mut man, p) = manager(6, 6);
    let a = man.create(p, Some(loc(0, 0)), 5, None).unwrap();
    let b = man.create(p, Some(loc(3, 3)), 7, None).unwrap();
    assert_eq!(man.combine_into(p, a, b), place_error());
    // right at the upper edge there is room
    let c = man.create(p, Some(loc(1, 5)), 5, None).unwrap();
    let cb = man.combine_into(p, c, b).unwrap();
    assert_eq!(find(&man.flush(p).unwrap(), cb).location, loc(0, 5));
}

#[test]
fn split_gives_two_halves_in_one_row() {
    let (mut man, p) = manager(4, 9);
    let a = man.create(p, None, 9, Some(loc(2, 3))).unwrap();
    let (l, r) = man.split(p, a).unwrap();
    assert_eq!((l.id, r.id), (1, 2));
    let info = man.flush(p).unwrap();
    assert_eq!(info.len(), 2);
    let (left, right) = (find(&info, l), find(&info, r));
    assert_eq!(left.volume, 4);
    assert_eq!(right.volume, 4);
    assert_eq!(left.dimensions, loc(2, 2));
    assert_eq!(right.dimensions, loc(2, 2));
    assert_eq!(left.location, loc(0, 0));
    assert_eq!(right.location, loc(0, 5));
    assert!(left.dimensions.x + right.dimensions.x >= 3);
}

#[test]
fn split_needs_free_columns() {
    let (mut man, p) = manager(1, 4);
    let a = man.create(p, None, 9, None).unwrap();
    assert_eq!(man.split(p, a), place_error());
    assert_eq!(man.flush(p).unwrap().len(), 1);
}

fn board_with_peripherals() -> Grid {
    let mut board = Grid::rectangle(5, 6);
    board.set_peripheral(
        &loc(4, 4),
        Peripheral::Heater {
            pwm_channel: 3,
            spi_channel: 1,
        },
    );
    board.set_peripheral(
        &loc(2, 5),
        Peripheral::Input {
            pwm_channel: 4,
            name: "water".to_string(),
        },
    );
    board.set_peripheral(
        &loc(2, 0),
        Peripheral::Output {
            pwm_channel: 5,
            name: "waste".to_string(),
        },
    );
    board
}

#[test]
fn heat_brings_the_droplet_onto_the_heater() {
    let mut man = Manager::new(board_with_peripherals());
    let p = man.new_process("first".to_string()).unwrap();
    let a = man.create(p, None, 9, None).unwrap();
    let b = man.heat(p, a, 95_000, 30_000).unwrap();
    let info = man.flush(p).unwrap();
    assert_eq!(info.len(), 1);
    assert_eq!(info[0].id, b);
    assert_eq!(info[0].location, loc(4, 4));
    assert_eq!(info[0].volume, 9);
    assert_eq!(info[0].dimensions, loc(1, 1));
    let fx = man.take_effects();
    match &fx[0] {
        Effect::Heat {
            heater,
            temperature,
            duration,
        } => {
            assert!(matches!(
                heater,
                Peripheral::Heater {
                    pwm_channel: 3,
                    spi_channel: 1
                }
            ));
            assert_eq!(*temperature, 95_000);
            assert_eq!(*duration, 30_000);
        }
        other => panic!("unexpected effect {:?}", other),
    }
}

#[test]
fn heat_needs_a_heater_and_one_column() {
    let (mut man, p) = manager(5, 5);
    let a = man.create(p, None, 9, None).unwrap();
    assert_eq!(man.heat(p, a, 1, 1), place_error());
    let mut man = Manager::new(board_with_peripherals());
    let p = man.new_process("first".to_string()).unwrap();
    let wide = man.create(p, None, 9, Some(loc(1, 2))).unwrap();
    assert_eq!(man.heat(p, wide, 1, 1), place_error());
    assert!(man.take_effects().is_empty());
    assert_eq!(man.flush(p).unwrap()[0].id, wide);
}

#[test]
fn input_takes_a_droplet_in_beside_the_port() {
    let mut man = Manager::new(board_with_peripherals());
    let p = man.new_process("first".to_string()).unwrap();
    let a = man.input(p, "water".to_string(), 40, loc(1, 2)).unwrap();
    let info = man.flush(p).unwrap();
    assert_eq!(info.len(), 1);
    assert_eq!(info[0].id, a);
    assert_eq!(info[0].location, loc(2, 3));
    assert_eq!(info[0].dimensions, loc(1, 2));
    assert_eq!(info[0].volume, 40);
    let fx = man.take_effects();
    assert_eq!(fx.len(), 11);
    match &fx[0] {
        Effect::Pins { levels } => {
            assert_eq!(levels.len(), N_CHANNELS);
            assert_eq!(levels.iter().filter(|l| **l == 1).count(), 4);
        }
        other => panic!("unexpected effect {:?}", other),
    }
    match &fx[1] {
        Effect::Dispense { input, volume } => {
            assert!(matches!(input, Peripheral::Input { pwm_channel: 4, .. }));
            assert_eq!(*volume, 40);
        }
        other => panic!("unexpected effect {:?}", other),
    }
    assert!(matches!(fx[9], Effect::Wait { millis: 1500 }));
    assert!(matches!(fx[10], Effect::Report { .. }));
    // there is no port for another substance
    assert_eq!(
        man.input(p, "oil".to_string(), 40, loc(1, 1)),
        place_error()
    );
}

#[test]
fn output_drains_a_droplet_through_the_port() {
    let mut man = Manager::new(board_with_peripherals());
    let p = man.new_process("first".to_string()).unwrap();
    let a = man.create(p, Some(loc(0, 3)), 25, None).unwrap();
    let b = man.create(p, Some(loc(4, 0)), 30, None).unwrap();
    assert_eq!(
        man.output(p, "water".to_string(), a),
        place_error()
    );
    assert_eq!(man.output(p, "waste".to_string(), a), Ok(()));
    let info = man.flush(p).unwrap();
    assert_eq!(info.len(), 1);
    assert_eq!(info[0].id, b);
    let fx = man.take_effects();
    match &fx[0] {
        Effect::Drain { output, volume } => {
            assert!(matches!(output, Peripheral::Output { pwm_channel: 5, .. }));
            assert_eq!(*volume, 25);
        }
        other => panic!("unexpected effect {:?}", other),
    }
    assert_eq!(
        man.output(p, "waste".to_string(), a),
        Err(PuddleError::NonExistentDropletId(a))
    );
}

#[test]
fn the_frames_show_what_the_hardware_switches() {
    let (mut man, p) = manager(2, 4);
    let a = man.create(p, Some(loc(0, 0)), 5, None).unwrap();
    man.take_frames();
    man.move_droplet(p, a, loc(1, 3)).unwrap();
    let grid = Grid::rectangle(2, 4);
    let pins: Vec<usize> = man
        .take_frames()
        .iter()
        .map(|f| {
            let levels = grid.active_channels(f);
            levels.iter().position(|l| *l == 1).unwrap()
        })
        .collect();
    assert_eq!(pins, vec![4, 5, 6, 7, 7]);
}
