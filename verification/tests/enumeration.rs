use odometer::inputs::{Reservation, Unit};
use odometer::solver::Solver2;

fn unit(name: &str, capacity: i32) -> Unit {
    Unit { name: String::from(name), capacity }
}

fn reservation(name: &str, min: i32, max: i32, weight: i32) -> Reservation {
    Reservation { name: String::from(name), min, max, weight }
}

#[test]
fn exact_fit_without_conflict_yields_one_combination() {
    let units = vec![unit("A", 2)];
    let reservations = vec![reservation("Q", 0, 1, 2)];
    let mut solver = Solver2::new(reservations, units);
    solver.init();
    let combinations = solver.produce_combinations();
    assert_eq!(combinations, vec![vec![Some(0)]]);
}

#[test]
fn unsatisfiable_reservation_yields_no_combination() {
    let units = vec![unit("A", 2), unit("B", 3)];
    let reservations = vec![reservation("Q", 0, 1, 5)];
    let mut solver = Solver2::new(reservations, units);
    solver.init();
    let combinations = solver.produce_combinations();
    assert_eq!(combinations.len(), 0);
}

#[test]
fn overlapping_reservations_never_share_a_unit() {
    let units = vec![unit("A", 2), unit("B", 2), unit("C", 2)];
    let reservations = vec![reservation("Y", 2, 4, 2), reservation("Z", 3, 5, 2)];
    let mut solver = Solver2::new(reservations, units);
    solver.init();
    let combinations = solver.produce_combinations();
    for combination in combinations.iter() {
        if let (Some(a), Some(b)) = (combination[0], combination[1]) {
            assert_ne!(a, b);
        }
    }
    // One capacity class: the shortcut table collapses the three
    // interchangeable units, and the interchangeability of Y and Z (equal
    // candidate sets, overlapping windows) collapses the rest; one
    // representative survives per class-level pairing.
    assert_eq!(combinations, vec![vec![Some(0), None], vec![None, Some(0)]]);
}

#[test]
fn unit_level_symmetry_collapses_to_capacity_classes() {
    let units = vec![unit("C", 3), unit("A", 2), unit("B", 2)];
    let reservations = vec![reservation("Q", 0, 1, 2)];
    let mut solver = Solver2::new(reservations, units);
    solver.init();
    let combinations = solver.produce_combinations();
    // Three fitting units but two capacity classes {2, 2} and {3}: one
    // combination per class.
    assert_eq!(combinations.len(), 2);
    assert_eq!(combinations, vec![vec![Some(0)], vec![Some(2)]]);
    assert_eq!(solver.ys[0].capacity, 2);
    assert_eq!(solver.ys[2].capacity, 3);
}

#[test]
fn swapped_assignments_of_identical_reservations_never_both_appear() {
    let units = vec![unit("A", 2), unit("B", 3)];
    let reservations = vec![reservation("Y", 2, 5, 2), reservation("Z", 2, 5, 2)];
    let mut solver = Solver2::new(reservations, units);
    solver.init();
    let combinations = solver.produce_combinations();
    // The full assignment survives only in its canonical order: the later
    // reservation on the lower-indexed unit.
    assert!(combinations.contains(&vec![Some(1), Some(0)]));
    assert!(!combinations.contains(&vec![Some(0), Some(1)]));
    assert_eq!(combinations.len(), 5);
}

#[test]
fn reading_the_combination_twice_returns_the_same_snapshot() {
    let units = vec![unit("A", 2), unit("B", 2), unit("C", 2)];
    let reservations = vec![reservation("Y", 2, 4, 2), reservation("Z", 3, 5, 2)];
    let mut solver = Solver2::new(reservations, units);
    solver.init();
    let before = solver.current_combination();
    assert_eq!(before, solver.current_combination());
    solver.step();
    let first = solver.current_combination();
    let second = solver.current_combination();
    assert_eq!(first, second);
}

#[test]
fn capacity_law_holds_on_every_returned_combination() {
    let units = vec![unit("A", 1), unit("B", 2), unit("C", 3), unit("D", 3)];
    let reservations = vec![
        reservation("Q", 0, 2, 2),
        reservation("R", 5, 6, 3),
        reservation("S", 1, 4, 1),
    ];
    let mut solver = Solver2::new(reservations, units);
    solver.init();
    let combinations = solver.produce_combinations();
    assert!(combinations.len() > 0);
    for combination in combinations.iter() {
        assert_eq!(combination.len(), solver.xs.len());
        for (i, slot) in combination.iter().enumerate() {
            if let Some(u) = slot {
                assert!(solver.ys[*u].capacity >= solver.xs[i].weight);
            }
        }
    }
}

#[test]
fn enumeration_terminates_and_is_exhaustive_for_a_mixed_input() {
    let units = vec![
        unit("AA", 2),
        unit("BB", 3),
        unit("CC", 3),
        unit("DD", 3),
        unit("EE", 4),
    ];
    let reservations = vec![
        reservation("QQ", 2, 5, 2),
        reservation("WW", 2, 5, 3),
        reservation("XX", 2, 5, 3),
        reservation("YY", 2, 5, 3),
        reservation("ZZ", 6, 8, 4),
    ];
    let mut solver = Solver2::new(reservations, units);
    solver.init();
    let combinations = solver.produce_combinations();
    assert!(combinations.len() > 0);
    for a in 0..combinations.len() {
        for b in (a + 1)..combinations.len() {
            assert_ne!(combinations[a], combinations[b]);
        }
    }
    for combination in combinations.iter() {
        for (i, slot) in combination.iter().enumerate() {
            if let Some(u) = slot {
                assert!(solver.ys[*u].capacity >= solver.xs[i].weight);
            }
        }
        for i in 0..combination.len() {
            for j in (i + 1)..combination.len() {
                let windows_overlap = solver.xs[i].max >= solver.xs[j].min
                    && solver.xs[j].max >= solver.xs[i].min;
                if windows_overlap {
                    if let (Some(a), Some(b)) = (combination[i], combination[j]) {
                        assert_ne!(a, b);
                    }
                }
            }
        }
    }
}

#[test]
fn no_reservations_is_immediate_exhaustion() {
    let units = vec![unit("A", 2), unit("B", 3)];
    let mut solver = Solver2::new(Vec::new(), units);
    solver.init();
    let combinations = solver.produce_combinations();
    assert_eq!(combinations.len(), 0);
    assert!(solver.step());
}

#[test]
fn unsatisfiable_reservation_stays_unassigned_while_others_advance() {
    // The weight-9 reservation fits no unit; its digit wraps on every
    // advance. The engine still emits the combinations that leave it
    // unassigned, rather than treating the whole space as empty.
    let units = vec![unit("A", 2)];
    let reservations = vec![reservation("Q", 0, 1, 2), reservation("R", 0, 1, 9)];
    let mut solver = Solver2::new(reservations, units);
    solver.init();
    let combinations = solver.produce_combinations();
    assert_eq!(combinations, vec![vec![Some(0), None]]);
}
