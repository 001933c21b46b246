use odometer::inputs::{sort_reservations, sort_units, Reservation, Unit};
use odometer::robin::RoundRobin;
use odometer::solver::Solver2;

fn unit(name: &str, capacity: i32) -> Unit {
    Unit { name: String::from(name), capacity }
}

fn reservation(name: &str, min: i32, max: i32, weight: i32) -> Reservation {
    Reservation { name: String::from(name), min, max, weight }
}

#[test]
fn both_robins_have_similar_ys_1() {
    let units = vec![
        Unit { name: String::from("A"), capacity: 2 },
        Unit { name: String::from("B"), capacity: 2 },
        Unit { name: String::from("C"), capacity: 2 },
    ];
    let reservations = vec![
        Reservation { name: String::from("Y"), weight: 2, min: 2, max: 5 },
        Reservation { name: String::from("Z"), weight: 2, min: 2, max: 5 },
    ];
    let mut solver = Solver2::new(reservations, units);
    solver.init();
    solver.both_robins_have_same_ys(0, 1);

    assert!(true);
}

#[test]
fn identical_reservations_share_their_compatibility_list() {
    let units = vec![unit("A", 2), unit("B", 3), unit("C", 1)];
    let reservations = vec![reservation("Y", 2, 5, 2), reservation("Z", 2, 5, 2)];
    let mut solver = Solver2::new(reservations, units);
    solver.init();
    assert!(solver.both_robins_have_same_ys(0, 1));
    // Capacity 1 does not fit weight 2: both lists keep the two larger units.
    assert_eq!(solver.y_links[0], vec![1, 2]);
    assert_eq!(solver.y_links[1], vec![1, 2]);
}

#[test]
fn robin_turns_through_its_range_and_wraps() {
    let mut robin = RoundRobin::new(2);
    assert_eq!(robin.state(), None);
    assert!(!robin.next());
    assert_eq!(robin.state(), Some(0));
    assert!(!robin.next());
    assert_eq!(robin.state(), Some(1));
    assert!(robin.next());
    assert_eq!(robin.state(), None);
    assert!(!robin.next());
    assert_eq!(robin.state(), Some(0));
}

#[test]
fn robin_over_empty_range_always_wraps() {
    let mut robin = RoundRobin::new(0);
    assert!(robin.next());
    assert_eq!(robin.state(), None);
    assert!(robin.next());
    assert_eq!(robin.state(), None);
}

#[test]
fn robin_jump_lands_or_wraps() {
    let mut robin = RoundRobin::new(3);
    assert!(!robin.jump(Some(1)));
    assert_eq!(robin.state(), Some(1));
    assert!(robin.jump(Some(3)));
    assert_eq!(robin.state(), None);
    assert!(!robin.jump(Some(2)));
    assert!(robin.jump(None));
    assert_eq!(robin.state(), None);
}

#[test]
fn robin_skip_counts_unset_as_one_before_zero() {
    let mut robin = RoundRobin::new(3);
    assert!(robin.skip(0));
    assert_eq!(robin.state(), None);
    assert!(!robin.skip(2));
    assert_eq!(robin.state(), Some(1));
    assert!(!robin.skip(1));
    assert_eq!(robin.state(), Some(2));
    assert!(robin.skip(1));
    assert_eq!(robin.state(), None);
    assert!(robin.skip(4));
    assert_eq!(robin.state(), None);
}

#[test]
fn units_sort_by_capacity() {
    let sorted = sort_units(vec![unit("A", 3), unit("B", 1), unit("C", 2)]);
    let capacities: Vec<i32> = sorted.iter().map(|u| u.capacity).collect();
    assert_eq!(capacities, vec![1, 2, 3]);
}

#[test]
fn reservations_sort_by_min_then_max_then_weight() {
    let sorted = sort_reservations(vec![
        reservation("A", 2, 5, 9),
        reservation("B", 1, 7, 1),
        reservation("C", 2, 4, 3),
        reservation("D", 2, 5, 2),
    ]);
    let keys: Vec<(i32, i32, i32)> = sorted.iter().map(|r| (r.min, r.max, r.weight)).collect();
    assert_eq!(keys, vec![(1, 7, 1), (2, 4, 3), (2, 5, 2), (2, 5, 9)]);
}

#[test]
fn overlap_test_counts_boundary_touching() {
    let a = reservation("A", 2, 4, 1);
    let b = reservation("B", 4, 5, 1);
    let c = reservation("C", 5, 6, 1);
    assert!(a.overlaps(&b));
    assert!(b.overlaps(&a));
    assert!(!a.overlaps(&c));
    assert!(!c.overlaps(&a));
}

#[test]
fn similar_and_fits_read_the_right_fields() {
    let a = reservation("A", 2, 4, 1);
    let b = reservation("B", 2, 4, 1);
    let c = reservation("C", 2, 4, 2);
    assert!(a.similar(&b));
    assert!(!a.similar(&c));
    let u2 = unit("U", 2);
    assert!(a.fits_in(&u2));
    assert!(c.fits_in(&u2));
    assert!(!reservation("D", 0, 1, 3).fits_in(&u2));
    assert!(u2.similar(&unit("V", 2)));
    assert!(!u2.similar(&unit("W", 3)));
}

#[test]
fn shortcut_table_points_past_each_run() {
    // One reservation over capacities 2, 2, 3: positions 0 and 1 are one
    // run, so position 0 jumps to position 2 and position 1 has no entry.
    let units = vec![unit("A", 2), unit("B", 2), unit("C", 3)];
    let reservations = vec![reservation("Y", 0, 1, 2)];
    let mut solver = Solver2::new(reservations, units);
    solver.init();
    assert_eq!(solver.shortcuts[0], vec![Some(Some(2)), None, None]);
}

#[test]
fn shortcut_table_jumps_to_unset_when_the_run_reaches_the_end() {
    let units = vec![unit("A", 2), unit("B", 2), unit("C", 2)];
    let reservations = vec![reservation("Y", 0, 1, 2)];
    let mut solver = Solver2::new(reservations, units);
    solver.init();
    assert_eq!(solver.shortcuts[0], vec![Some(None), Some(None), None]);
}
