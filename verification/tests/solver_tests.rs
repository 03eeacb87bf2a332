use sheepdog::field::{Dog, Field, Sheep};
use sheepdog::solve_markov::{
    generate_optimal_utility, seed_utility_map, t_star, update_size, Fault, EPSILON,
};
use sheepdog::utility::{Utility, UtilityMap};

fn entries_of(map: &UtilityMap) -> Vec<((Sheep, Dog), Utility)> {
    map.entries()
}

#[test]
fn seeds_cover_the_admissible_placements() {
    let map = seed_utility_map(7);
    assert_eq!(map.size(), 7);
    let board = Field::sized(7);
    let mut held = 0;
    for sx in 0..7 {
        for sy in 0..7 {
            for dx in 0..7 {
                for dy in 0..7 {
                    let open = board.is_open_at(sx, sy) && board.is_open_at(dx, dy);
                    let value = map.get(Sheep::at(sx, sy), Dog::at(dx, dy));
                    assert_eq!(value.is_some(), open);
                    if open {
                        held += 1;
                    }
                }
            }
        }
    }
    assert_eq!(held, 42 * 42);
}

#[test]
fn seeds_are_steps_to_the_centre_and_two() {
    let map = seed_utility_map(7);
    assert_eq!(
        map.get(Sheep::at(0, 0), Dog::at(6, 6)),
        Some(Utility::Finite(8_000_000))
    );
    assert_eq!(
        map.get(Sheep::at(3, 2), Dog::at(0, 0)),
        Some(Utility::Finite(3_000_000))
    );
    assert_eq!(
        map.get(Sheep::at(6, 3), Dog::at(0, 0)),
        Some(Utility::Finite(5_000_000))
    );
    assert_eq!(
        map.get(Sheep::at(1, 0), Dog::at(5, 5)),
        Some(Utility::Finite(7_000_000))
    );
    assert_eq!(
        map.get(Sheep::at(0, 1), Dog::at(5, 5)),
        Some(Utility::Finite(7_000_000))
    );
    assert_eq!(
        map.get(Sheep::at(3, 3), Dog::at(0, 0)),
        Some(Utility::Finite(0))
    );
    assert_eq!(
        map.get(Sheep::at(3, 3), Dog::at(3, 3)),
        Some(Utility::Finite(0))
    );
    assert_eq!(
        map.get(Sheep::at(5, 1), Dog::at(5, 1)),
        Some(Utility::Infinite)
    );
    assert_eq!(map.get(Sheep::at(2, 2), Dog::at(0, 0)), None);
    assert_eq!(map.get(Sheep::at(0, 0), Dog::at(3, 4)), None);
}

#[test]
fn seeding_twice_gives_the_same_table() {
    let first = seed_utility_map(7);
    let second = seed_utility_map(7);
    assert_eq!(first, second);
    assert_eq!(entries_of(&first), entries_of(&second));
    assert_eq!(
        format!("{:?}", entries_of(&first)),
        format!("{:?}", entries_of(&second))
    );
    let third = seed_utility_map(5);
    let fourth = seed_utility_map(5);
    assert_eq!(entries_of(&third), entries_of(&fourth));
    assert_eq!(entries_of(&third).len(), 18 * 18);
}

#[test]
fn one_sweep_backs_up_the_seeds() {
    let swept = t_star(seed_utility_map(7)).unwrap();
    assert_eq!(swept.size(), 7);
    // The sheep far from the dog wanders to one of two cells, both seeded with
    // seven moves: one move and ninety-nine hundredths of seven.
    assert_eq!(
        swept.get(Sheep::at(0, 0), Dog::at(6, 6)),
        Some(Utility::Finite(7_930_000))
    );
    // From the mouth of the pen the dog can drive the sheep in for certain.
    assert_eq!(
        swept.get(Sheep::at(3, 2), Dog::at(3, 0)),
        Some(Utility::Finite(1_000_000))
    );
    // A dog boxed in by the pen and the sheep has no move to value.
    assert_eq!(
        swept.get(Sheep::at(3, 2), Dog::at(3, 3)),
        Some(Utility::Infinite)
    );
}

#[test]
fn one_sweep_takes_the_mean_over_the_sheeps_answers() {
    // Sheep at (6, 0), dog at (0, 6): the sheep does not see the dog and goes
    // to (5, 0) or (6, 1), seeded with seven moves each; after a second
    // sweep the value rests on those of the first.
    let first = t_star(seed_utility_map(7)).unwrap();
    assert_eq!(
        first.get(Sheep::at(6, 0), Dog::at(0, 6)),
        Some(Utility::Finite(7_930_000))
    );
    // Sheep at (3, 1), dog at (0, 6), not in sight. Wherever the dog goes the
    // sheep picks among (3, 0), (2, 1), (4, 1), (3, 2), seeded with 5, 5, 5, 3
    // moves: the mean is four and a half, the value 1 + 0.99 * 4.5.
    assert_eq!(
        first.get(Sheep::at(3, 1), Dog::at(0, 6)),
        Some(Utility::Finite(5_455_000))
    );
}

#[test]
fn terminal_values_stay_whatever_the_sweep() {
    let mut map = seed_utility_map(7);
    for sweep in 0..5 {
        for dx in 0..7 {
            for dy in 0..7 {
                if let Some(value) = map.get(Sheep::at(3, 3), Dog::at(dx, dy)) {
                    assert_eq!(value, Utility::Finite(0), "sweep {}", sweep);
                }
                if (dx, dy) != (3, 3) {
                    if let Some(value) = map.get(Sheep::at(dx, dy), Dog::at(dx, dy)) {
                        assert_eq!(value, Utility::Infinite, "sweep {}", sweep);
                    }
                }
            }
        }
        map = t_star(map).unwrap();
    }
}

#[test]
fn a_sweep_sets_terminal_values_whatever_they_were() {
    let mut map = seed_utility_map(7);
    assert!(map.insert(Sheep::at(3, 3), Dog::at(0, 0), Utility::Finite(77)));
    assert!(map.insert(Sheep::at(1, 1), Dog::at(1, 1), Utility::Finite(5)));
    let swept = t_star(map).unwrap();
    assert_eq!(
        swept.get(Sheep::at(3, 3), Dog::at(0, 0)),
        Some(Utility::Finite(0))
    );
    assert_eq!(
        swept.get(Sheep::at(1, 1), Dog::at(1, 1)),
        Some(Utility::Infinite)
    );
}

#[test]
fn a_sweep_keeps_the_placements_and_leaves_fenced_ones_alone() {
    let mut map = seed_utility_map(7);
    assert!(map.insert(Sheep::at(2, 2), Dog::at(0, 0), Utility::Finite(123)));
    let before = entries_of(&map).len();
    let swept = t_star(map).unwrap();
    assert_eq!(entries_of(&swept).len(), before);
    assert_eq!(
        swept.get(Sheep::at(2, 2), Dog::at(0, 0)),
        Some(Utility::Finite(123))
    );
}

#[test]
fn a_sweep_reads_the_old_values_only() {
    // Two sweeps in a row give what sweeping a copy of the first result
    // gives: nothing of a sweep's own writing is read back within it.
    let once = t_star(seed_utility_map(5)).unwrap();
    let copy = once.clone();
    let twice = t_star(once).unwrap();
    let again = t_star(copy).unwrap();
    assert_eq!(entries_of(&twice), entries_of(&again));
}

#[test]
fn a_sweep_fails_on_a_missing_successor() {
    let mut map = UtilityMap::new(7);
    assert!(map.insert(Sheep::at(0, 0), Dog::at(6, 6), Utility::Finite(1)));
    assert_eq!(t_star(map).err(), Some(Fault::MissingEntry));
}

#[test]
fn a_sweep_of_terminal_placements_needs_no_successor() {
    let mut map = UtilityMap::new(7);
    assert!(map.insert(Sheep::at(3, 3), Dog::at(6, 6), Utility::Finite(9)));
    assert!(map.insert(Sheep::at(1, 1), Dog::at(1, 1), Utility::Finite(9)));
    assert!(map.insert(Sheep::at(2, 3), Dog::at(1, 1), Utility::Finite(9)));
    let swept = t_star(map).unwrap();
    assert_eq!(
        swept.get(Sheep::at(3, 3), Dog::at(6, 6)),
        Some(Utility::Finite(0))
    );
    assert_eq!(
        swept.get(Sheep::at(1, 1), Dog::at(1, 1)),
        Some(Utility::Infinite)
    );
    assert_eq!(
        swept.get(Sheep::at(2, 3), Dog::at(1, 1)),
        Some(Utility::Finite(9))
    );
    assert_eq!(entries_of(&swept).len(), 3);
    let empty = t_star(UtilityMap::new(7)).unwrap();
    assert_eq!(entries_of(&empty).len(), 0);
}

#[test]
fn stopping_statistic_is_two_hundred_times_the_change() {
    let mut old = UtilityMap::new(7);
    let mut new = UtilityMap::new(7);
    assert!(old.insert(Sheep::at(0, 0), Dog::at(1, 1), Utility::Finite(5)));
    assert!(new.insert(Sheep::at(0, 0), Dog::at(1, 1), Utility::Finite(8)));
    assert!(old.insert(Sheep::at(4, 0), Dog::at(1, 1), Utility::Finite(20)));
    assert!(new.insert(Sheep::at(4, 0), Dog::at(1, 1), Utility::Finite(13)));
    assert!(old.insert(Sheep::at(5, 5), Dog::at(5, 5), Utility::Infinite));
    assert!(new.insert(Sheep::at(5, 5), Dog::at(5, 5), Utility::Infinite));
    assert!(new.insert(Sheep::at(6, 6), Dog::at(0, 0), Utility::Finite(1000)));
    assert_eq!(update_size(&old, &new), Some(Utility::Finite(2000)));
    assert_eq!(update_size(&old, &old), Some(Utility::Finite(0)));
    assert_eq!(
        update_size(&UtilityMap::new(7), &new),
        Some(Utility::Finite(0))
    );
}

#[test]
fn stopping_statistic_is_infinite_when_a_value_turns_infinite() {
    let mut old = UtilityMap::new(7);
    let mut new = UtilityMap::new(7);
    assert!(old.insert(Sheep::at(0, 0), Dog::at(1, 1), Utility::Finite(5)));
    assert!(new.insert(Sheep::at(0, 0), Dog::at(1, 1), Utility::Infinite));
    assert_eq!(update_size(&old, &new), Some(Utility::Infinite));
    assert_eq!(update_size(&new, &old), Some(Utility::Infinite));
}

#[test]
fn stopping_statistic_needs_tables_that_fit() {
    let mut old = UtilityMap::new(7);
    assert!(old.insert(Sheep::at(0, 0), Dog::at(1, 1), Utility::Finite(5)));
    assert_eq!(update_size(&old, &UtilityMap::new(7)), None);
    let mut other = UtilityMap::new(5);
    assert!(other.insert(Sheep::at(0, 0), Dog::at(1, 1), Utility::Finite(5)));
    assert_eq!(update_size(&old, &other), None);
}

#[test]
fn stopping_statistic_falls_in_the_long_run() {
    let mut map = seed_utility_map(7);
    let mut statistics = Vec::new();
    for _ in 0..230 {
        let old = map.clone();
        let fresh = t_star(map).unwrap();
        statistics.push(update_size(&old, &fresh).unwrap());
        map = fresh;
    }
    // The first sweep turns some finite guesses infinite.
    assert_eq!(statistics[0], Utility::Infinite);
    // While the values are far from settled, every sweep moves them less
    // than the one before.
    for k in 2..150 {
        assert!(
            !statistics[k - 1].is_below(statistics[k]),
            "sweep {} moved more than the one before: {:?} after {:?}",
            k + 1,
            statistics[k],
            statistics[k - 1]
        );
    }
    // Close to the end rounding shows, but ten sweeps on the change is
    // never larger.
    for k in 1..220 {
        assert!(
            !statistics[k].is_below(statistics[k + 10]),
            "sweep {} moved more than the one ten before: {:?} after {:?}",
            k + 11,
            statistics[k + 10],
            statistics[k]
        );
    }
    assert!(statistics[229].is_below(Utility::Finite(EPSILON)));
    assert!(statistics[229].is_below(statistics[1]));
}

#[test]
fn sweeps_reach_a_table_that_no_sweep_changes() {
    let mut map = seed_utility_map(7);
    for _ in 0..225 {
        map = t_star(map).unwrap();
    }
    // From here on every sweep leaves the table as it is, and the stopping
    // statistic stays at nothing.
    for _ in 0..5 {
        let before = map.clone();
        map = t_star(map).unwrap();
        assert_eq!(map, before);
        assert_eq!(update_size(&before, &map), Some(Utility::Finite(0)));
    }
}

#[test]
fn solver_stops_at_the_first_sweep_that_settles() {
    let solved = generate_optimal_utility(7, 5000);
    assert!(solved.converged);
    assert_eq!(solved.map.size(), 7);
    assert_eq!(solved.sweeps, 214);
    let mut map = seed_utility_map(7);
    for sweep in 1..=solved.sweeps {
        let old = map.clone();
        map = t_star(map).unwrap();
        let settled = update_size(&old, &map)
            .unwrap()
            .is_below(Utility::Finite(EPSILON));
        assert_eq!(settled, sweep == solved.sweeps);
    }
    assert_eq!(entries_of(&map), entries_of(&solved.map));
}

#[test]
fn solver_reports_when_the_ceiling_was_too_low() {
    let early = generate_optimal_utility(7, 3);
    assert!(!early.converged);
    assert_eq!(early.sweeps, 3);
    let by_hand = t_star(t_star(t_star(seed_utility_map(7)).unwrap()).unwrap()).unwrap();
    assert_eq!(entries_of(&early.map), entries_of(&by_hand));
    let none = generate_optimal_utility(7, 0);
    assert!(!none.converged);
    assert_eq!(none.sweeps, 0);
    assert_eq!(entries_of(&none.map), entries_of(&seed_utility_map(7)));
}

#[test]
fn solved_table_has_fixed_terminals_and_finite_costs() {
    let solved = generate_optimal_utility(7, 5000);
    let board = Field::sized(7);
    for sx in 0..7 {
        for sy in 0..7 {
            for dx in 0..7 {
                for dy in 0..7 {
                    let value = solved.map.get(Sheep::at(sx, sy), Dog::at(dx, dy));
                    let open = board.is_open_at(sx, sy) && board.is_open_at(dx, dy);
                    assert_eq!(value.is_some(), open);
                    if !open {
                        continue;
                    }
                    if (sx, sy) == (3, 3) {
                        assert_eq!(value, Some(Utility::Finite(0)));
                    } else if (sx, sy) == (dx, dy) {
                        assert_eq!(value, Some(Utility::Infinite));
                    } else if let Some(Utility::Finite(parts)) = value {
                        assert!(parts >= 1_000_000);
                        assert!(parts <= 100_000_000);
                    }
                }
            }
        }
    }
    assert_eq!(
        solved.map.get(Sheep::at(3, 2), Dog::at(3, 0)),
        Some(Utility::Finite(1_000_000))
    );
    assert_eq!(
        solved.map.get(Sheep::at(3, 2), Dog::at(3, 3)),
        Some(Utility::Infinite)
    );
}

#[test]
fn solved_table_is_a_fixed_point_up_to_the_threshold() {
    let solved = generate_optimal_utility(5, 5000);
    assert!(solved.converged);
    let before = solved.map.clone();
    let after = t_star(solved.map).unwrap();
    let statistic = update_size(&before, &after).unwrap();
    assert!(statistic.is_below(Utility::Finite(EPSILON)));
}

#[test]
fn solver_works_on_the_smallest_field() {
    let solved = generate_optimal_utility(3, 100);
    assert!(solved.converged);
    assert_eq!(entries_of(&solved.map).len(), 4);
    assert_eq!(
        solved.map.get(Sheep::at(1, 1), Dog::at(1, 0)),
        Some(Utility::Finite(0))
    );
    assert_eq!(
        solved.map.get(Sheep::at(1, 1), Dog::at(1, 1)),
        Some(Utility::Finite(0))
    );
    assert_eq!(
        solved.map.get(Sheep::at(1, 0), Dog::at(1, 0)),
        Some(Utility::Infinite)
    );
    assert_eq!(
        solved.map.get(Sheep::at(1, 0), Dog::at(1, 1)),
        Some(Utility::Infinite)
    );
}
