use std::collections::{HashMap, HashSet};
use std::sync::Mutex;

use puddle_core::plan;
use puddle_core::{
    DropletId, DropletInfo, Grid, Location, Manager, Peripheral, ProcessId, PuddleError,
};

/// The number of volume units that the tests take for the volume 1.0.
const UNIT: f64 = 1_000_000.0;

fn units(volume: f64) -> u64 {
    (volume * UNIT).round() as u64
}

fn volume_of(info: &DropletInfo) -> f64 {
    info.volume as f64 / UNIT
}

fn manager_from_rect(rows: usize, cols: usize) -> Manager {
    Manager::new(Grid::rectangle(rows, cols))
}

fn info_dict(man: &mut Manager, p: ProcessId) -> HashMap<DropletId, DropletInfo> {
    man.flush(p).unwrap().into_iter().map(|d| (d.id, d)).collect()
}

fn float_epsilon_equal(float1: f64, float2: f64) -> bool {
    let epsilon = 0.00001f64;
    (float1 - float2).abs() < epsilon
}

#[test]
fn create_some_droplets() {
    let mut man = manager_from_rect(1, 4);
    let p = man.new_process("test".to_string()).unwrap();

    let loc = Location { y: 0, x: 0 };
    let id = man.create(p, Some(loc), units(1.0), None).unwrap();

    let should_work = man.create(p, None, units(1.0), None);
    let should_not_work = man.create(p, None, units(1.0), None);

    assert!(should_work.is_ok());
    assert!(should_not_work.is_err());

    let droplets = info_dict(&mut man, p);

    assert_eq!(droplets.len(), 2);
    assert_eq!(droplets[&id].location, loc);
    assert!(float_epsilon_equal(volume_of(&droplets[&id]), 1.0));

    man.flush(p).unwrap();
}

#[test]
fn move_droplet() {
    let mut man = manager_from_rect(1, 4);
    let p = man.new_process("test".to_string()).unwrap();

    let loc1 = Location { y: 0, x: 0 };
    let loc2 = Location { y: 0, x: 3 };
    let id1 = man.create(p, Some(loc1), units(1.0), None).unwrap();
    let id2 = man.move_droplet(p, id1, loc2).unwrap();

    let droplets = info_dict(&mut man, p);

    assert_eq!(droplets.len(), 1);
    assert_eq!(droplets[&id2].location, loc2);
    assert!(float_epsilon_equal(volume_of(&droplets[&id2]), 1.0));
}

#[test]
fn mix3() {
    let mut man = manager_from_rect(20, 20);
    let p = man.new_process("test".to_string()).unwrap();

    let id1 = man.create(p, None, units(1.0), None).unwrap();
    let id2 = man.create(p, None, units(1.0), None).unwrap();
    let id3 = man.create(p, None, units(1.0), None).unwrap();

    let id12 = man.mix(p, id1, id2).unwrap();
    let id123 = man.mix(p, id12, id3).unwrap();

    let droplets = info_dict(&mut man, p);

    assert_eq!(droplets.len(), 1);
    assert!(droplets.contains_key(&id123));
    assert!(float_epsilon_equal(volume_of(&droplets[&id123]), 3.0));
}

#[test]
fn mix_split() {
    let mut man = manager_from_rect(9, 9);
    let p = man.new_process("test".to_string()).unwrap();

    let id1 = man.create(p, None, units(1.0), None).unwrap();
    let id2 = man.create(p, None, units(1.0), None).unwrap();

    let id12 = man.mix(p, id1, id2).unwrap();

    let (id3, id4) = man.split(p, id12).unwrap();
    let (id5, id6) = man.split(p, id4).unwrap();

    let droplets = info_dict(&mut man, p);

    assert_eq!(
        droplets.keys().collect::<HashSet<_>>(),
        vec![id3, id5, id6].iter().collect()
    );

    assert!(float_epsilon_equal(volume_of(&droplets[&id3]), 1.0));
    assert!(float_epsilon_equal(volume_of(&droplets[&id5]), 0.5));
}

#[test]
fn process_isolation() {
    // six processes work at the same time
    let num_processes = 6;

    let manager = Mutex::new(manager_from_rect(9, 9));
    let ps: Vec<ProcessId> = (0..num_processes)
        .map(|i| {
            manager
                .lock()
                .unwrap()
                .new_process(format!("test-{}", i))
                .unwrap()
        })
        .collect();

    let seen: Mutex<Vec<(ProcessId, DropletId, Vec<DropletInfo>)>> = Mutex::new(Vec::new());

    crossbeam::scope(|scope| {
        for p in ps.iter().copied() {
            let manager = &manager;
            let seen = &seen;
            scope.spawn(move |_| {
                let drop_id = manager
                    .lock()
                    .unwrap()
                    .create(p, None, units(1.0), None)
                    .unwrap();
                let info = manager.lock().unwrap().flush(p).unwrap();
                seen.lock().unwrap().push((p, drop_id, info));
            });
        }
    })
    .unwrap();

    let seen = seen.into_inner().unwrap();
    assert_eq!(seen.len(), num_processes);
    for (p, drop_id, info) in seen {
        assert_eq!(info.len(), 1);
        assert_eq!(info[0].id, drop_id);
        assert_eq!(info[0].id.process_id, p);
    }
}

#[test]
fn create_does_not_fit() {
    let mut man = manager_from_rect(2, 2);
    let p = man.new_process("test".to_string()).unwrap();

    let _id1 = man.create(p, None, units(1.0), None).unwrap();
    let id2 = man.create(p, None, units(1.0), None);

    assert!(matches!(
        id2,
        Err(PuddleError::PlanError(plan::PlanError::PlaceError))
    ));
}

fn check_mix_dimensions(dim1: Location, dim2: Location, dim_result: Location) {
    let mut man = manager_from_rect(20, 20);
    let p = man.new_process("test".to_string()).unwrap();

    let id1 = man.create(p, None, units(1.0), Some(dim1)).unwrap();
    let id2 = man.create(p, None, units(1.0), Some(dim2)).unwrap();

    let id12 = man.mix(p, id1, id2).unwrap();

    let droplets = info_dict(&mut man, p);

    assert_eq!(droplets.len(), 1);
    assert_eq!(droplets[&id12].dimensions, dim_result);
}

#[test]
fn mix_dimensions_size() {
    check_mix_dimensions(
        Location { y: 1, x: 1 },
        Location { y: 2, x: 1 },
        Location { y: 3, x: 1 },
    );
    check_mix_dimensions(
        Location { y: 1, x: 2 },
        Location { y: 2, x: 1 },
        Location { y: 3, x: 2 },
    );
}

#[test]
fn mix_dimensions_place_must_overlap() {
    // a placement can overlap with the input droplets without requiring
    // them to move
    let mut man = manager_from_rect(3, 3);
    let p = man.new_process("test".to_string()).unwrap();

    let id1 = man.create(p, None, units(1.0), None).unwrap();
    let id2 = man.create(p, None, units(1.0), None).unwrap();

    let _ = man.mix(p, id1, id2).unwrap();
}

fn check_split_dimensions(dim: Location, dim1: Location, dim2: Location) {
    let mut man = manager_from_rect(9, 9);
    let p = man.new_process("test".to_string()).unwrap();

    let id = man.create(p, None, units(1.0), Some(dim)).unwrap();

    let (id1, id2) = man.split(p, id).unwrap();

    let droplets = info_dict(&mut man, p);

    assert_eq!(droplets.len(), 2);
    assert_eq!(droplets[&id1].dimensions, dim1);
    assert_eq!(droplets[&id2].dimensions, dim2);
}

#[test]
fn split_dimensions_size() {
    check_split_dimensions(
        Location { y: 1, x: 1 },
        Location { y: 1, x: 1 },
        Location { y: 1, x: 1 },
    );
    check_split_dimensions(
        Location { y: 1, x: 3 },
        Location { y: 1, x: 2 },
        Location { y: 1, x: 2 },
    );
}

#[test]
fn create_dimensions_failure_overlap() {
    let mut man = manager_from_rect(9, 9);
    let p = man.new_process("test".to_string()).unwrap();

    let dim1 = Location { y: 1, x: 2 };
    let dim2 = Location { y: 1, x: 1 };

    let loc1 = Location { y: 0, x: 1 };
    let loc2 = Location { y: 1, x: 3 };

    let _id1 = man.create(p, Some(loc1), units(1.0), Some(dim1)).unwrap();
    let id2 = man.create(p, Some(loc2), units(1.0), Some(dim2));
    assert!(id2.is_err())
}

#[test]
fn create_dimension() {
    let mut man = manager_from_rect(9, 9);
    let p = man.new_process("test".to_string()).unwrap();

    let dim1 = Location { y: 3, x: 2 };

    let id1 = man.create(p, None, units(1.0), Some(dim1)).unwrap();

    let droplets = info_dict(&mut man, p);

    assert_eq!(droplets.len(), 1);
    assert_eq!(droplets[&id1].dimensions, dim1);
}

#[test]
fn mix_larger_droplets() {
    let mut man = manager_from_rect(100, 100);
    let p = man.new_process("test".to_string()).unwrap();

    let dim1 = Location { y: 4, x: 6 };
    let dim2 = Location { y: 8, x: 4 };

    let id1 = man.create(p, None, units(1.0), Some(dim1)).unwrap();
    let id2 = man.create(p, None, units(1.0), Some(dim2)).unwrap();

    let _id12 = man.mix(p, id1, id2).unwrap();
}

#[test]
fn split_single_nonzero_dimensions() {
    let mut man = manager_from_rect(9, 9);
    let p = man.new_process("test".to_string()).unwrap();

    let dim = Location { y: 1, x: 1 };
    let id0 = man.create(p, None, units(1.0), Some(dim)).unwrap();

    let (id1, id2) = man.split(p, id0).unwrap();

    let droplets = info_dict(&mut man, p);

    assert_eq!(droplets.len(), 2);
    assert_eq!(droplets[&id1].dimensions, dim);
    assert_eq!(droplets[&id2].dimensions, dim);
}

#[test]
fn heat_droplet() {
    // a board of four rows and five columns with a heater at (3, 2)
    let mut board = Grid::rectangle(4, 5);
    board.set_peripheral(
        &Location { y: 3, x: 2 },
        Peripheral::Heater {
            pwm_channel: 0,
            spi_channel: 0,
        },
    );

    let mut man = Manager::new(board);
    let p = man.new_process("test".to_string()).unwrap();

    let dim = Location { y: 1, x: 1 };
    let id0 = man.create(p, None, units(1.0), Some(dim)).unwrap();
    // 60 degrees for one second
    let temp = 60_000;
    let id1 = man.heat(p, id0, temp, 1000).unwrap();

    let droplets = info_dict(&mut man, p);
    let header_loc = Location { y: 3, x: 2 };

    assert_eq!(droplets.len(), 1);
    assert_eq!(droplets[&id1].location, header_loc);
}

#[test]
fn combine_into() {
    let mut man = manager_from_rect(10, 10);
    let p = man.new_process("test".to_string()).unwrap();

    let loc_a = Location { y: 2, x: 0 };
    let a = man.create(p, Some(loc_a), units(1.0), None).unwrap();
    let loc_b = Location { y: 2, x: 9 };
    let b = man.create(p, Some(loc_b), units(1.0), None).unwrap();

    let loc_c = Location { y: 9, x: 0 };
    let c = man.create(p, Some(loc_c), units(1.0), None).unwrap();
    let loc_d = Location { y: 9, x: 9 };
    let d = man.create(p, Some(loc_d), units(1.0), None).unwrap();

    let ab = man.combine_into(p, a, b).unwrap();
    let cd = man.combine_into(p, d, c).unwrap();

    let droplets = info_dict(&mut man, p);
    let y1 = &Location { y: 1, x: 0 };
    assert_eq!(droplets[&ab].location, loc_a.minus(y1));
    assert_eq!(droplets[&cd].location, loc_d.minus(y1));
}
