use rand::rngs::StdRng;
use rand::SeedableRng;
use sheepdog::field::{Dog, Field, Sheep};
use sheepdog::simulations::{
    advance, find_best_starting_location, pick_best, run_episode, run_simulation, run_simulations,
    try_moves, BatchReport, EpisodeReport, Outcome, STEP_BUDGET,
};
use sheepdog::solve_markov::{generate_optimal_utility, seed_utility_map, Fault};
use sheepdog::utility::{Utility, UtilityMap};

fn solved(size: usize) -> UtilityMap {
    let solution = generate_optimal_utility(size, 5000);
    assert!(solution.converged);
    solution.map
}

fn field(sheep: (i32, i32), dog: (i32, i32)) -> Field {
    Field::sized_with(7, Sheep::at(sheep.0, sheep.1), Dog::at(dog.0, dog.1))
}

fn won(steps: u64, expected: u64) -> Result<EpisodeReport, Fault> {
    Ok(EpisodeReport {
        steps,
        expected: Utility::Finite(expected),
        outcome: Outcome::Won,
        sheep: Sheep::at(3, 3),
        dog: Dog::at(0, 0),
    })
}

fn ended(outcome: Outcome, steps: u64) -> Result<EpisodeReport, Fault> {
    Ok(EpisodeReport {
        steps,
        expected: Utility::Finite(4_000_000),
        outcome,
        sheep: Sheep::at(1, 1),
        dog: Dog::at(1, 1),
    })
}

#[test]
fn pick_best_takes_the_first_least_value() {
    let mut map = UtilityMap::new(7);
    assert!(map.insert(Sheep::at(0, 0), Dog::at(1, 1), Utility::Finite(9)));
    assert!(map.insert(Sheep::at(0, 1), Dog::at(1, 1), Utility::Finite(4)));
    assert!(map.insert(Sheep::at(0, 2), Dog::at(1, 1), Utility::Infinite));
    assert!(map.insert(Sheep::at(0, 3), Dog::at(1, 1), Utility::Finite(4)));
    assert!(map.insert(Sheep::at(0, 4), Dog::at(1, 1), Utility::Finite(6)));
    let outcomes = vec![
        field((0, 0), (1, 1)),
        field((0, 1), (1, 1)),
        field((0, 2), (1, 1)),
        field((0, 3), (1, 1)),
        field((0, 4), (1, 1)),
    ];
    assert_eq!(pick_best(&map, &outcomes), Ok(1));
    let reversed: Vec<Field> = outcomes.iter().rev().cloned().collect();
    assert_eq!(pick_best(&map, &reversed), Ok(1));
    assert_eq!(pick_best(&map, &vec![field((0, 2), (1, 1))]), Ok(0));
    assert_eq!(
        pick_best(&map, &vec![field((0, 2), (1, 1)), field((0, 2), (1, 1))]),
        Ok(0)
    );
    assert_eq!(
        pick_best(&map, &vec![field((0, 2), (1, 1)), field((0, 0), (1, 1))]),
        Ok(1)
    );
}

#[test]
fn pick_best_fails_without_a_field_or_a_value() {
    let mut map = UtilityMap::new(7);
    assert!(map.insert(Sheep::at(0, 0), Dog::at(1, 1), Utility::Finite(9)));
    assert_eq!(pick_best(&map, &Vec::new()), Err(Fault::NoMove));
    assert_eq!(
        pick_best(&map, &vec![field((0, 1), (1, 1))]),
        Err(Fault::MissingEntry)
    );
    assert_eq!(
        pick_best(&map, &vec![field((0, 0), (1, 1)), field((0, 1), (1, 1))]),
        Err(Fault::MissingEntry)
    );
    assert_eq!(
        pick_best(&UtilityMap::new(7), &Vec::new()),
        Err(Fault::NoMove)
    );
}

#[test]
fn try_moves_answers_each_move_of_the_dog() {
    let mut rng = StdRng::seed_from_u64(8);
    let start = field((3, 1), (0, 0));
    for _ in 0..20 {
        let outcomes = try_moves(&start, &mut rng);
        let dogs: Vec<(i32, i32)> = outcomes.iter().map(|f| (f.dog.x, f.dog.y)).collect();
        assert_eq!(dogs, vec![(1, 0), (0, 1), (1, 1)]);
        // After the first two moves the dog is out of the sheep's sight and
        // leaves it all four ways to go; after the third the sheep flees.
        for outcome in &outcomes[..2] {
            let sheep = (outcome.sheep.x, outcome.sheep.y);
            assert!([(3, 0), (2, 1), (4, 1), (3, 2)].contains(&sheep));
        }
        let fled = (outcomes[2].sheep.x, outcomes[2].sheep.y);
        assert!([(3, 0), (4, 1), (3, 2)].contains(&fled));
    }
    assert!(try_moves(&field((3, 2), (3, 3)), &mut rng).is_empty());
}

#[test]
fn advance_makes_one_move_of_each_animal() {
    let map = solved(7);
    let mut rng = StdRng::seed_from_u64(3);
    for sx in 0..7 {
        for sy in 0..7 {
            let start = field((sx, sy), (6, 0));
            if !start.is_valid() || start.dog_won() || start.sheep_won() {
                continue;
            }
            let after = advance(&map, &start, &mut rng).unwrap();
            assert!(after.is_well_formed());
            assert!(after.is_valid());
            assert_eq!(after.size(), 7);
            let dog_step = ((after.dog.x - 6).abs(), after.dog.y.abs());
            assert!(dog_step.0 <= 1 && dog_step.1 <= 1 && dog_step != (0, 0));
            assert!((after.dog.x, after.dog.y) != (sx, sy));
            let moved = start.move_dog_to(after.dog.as_cell());
            let answers: Vec<Sheep> = moved.get_sheep_states().iter().map(|f| f.sheep).collect();
            assert!(answers.contains(&after.sheep));
        }
    }
}

#[test]
fn advance_goes_for_the_outcome_of_least_value() {
    // With the sheep at the mouth of the pen and the dog above it, the dog
    // drives the sheep in: of the dog's moves the first whose outcome is the
    // sheep in the pen is taken.
    let map = solved(7);
    let mut rng = StdRng::seed_from_u64(5);
    let after = advance(&map, &field((3, 2), (3, 0)), &mut rng).unwrap();
    assert_eq!(after.sheep, Sheep::at(3, 3));
    assert_eq!(after.dog, Dog::at(2, 0));
    assert!(after.dog_won());
}

#[test]
fn advance_fails_when_the_dog_is_boxed_in() {
    let map = solved(7);
    let mut rng = StdRng::seed_from_u64(5);
    assert_eq!(
        advance(&map, &field((3, 2), (3, 3)), &mut rng).err(),
        Some(Fault::NoMove)
    );
}

#[test]
fn advance_fails_on_a_missing_value() {
    let mut rng = StdRng::seed_from_u64(5);
    let empty = UtilityMap::new(7);
    assert_eq!(
        advance(&empty, &field((0, 0), (6, 6)), &mut rng).err(),
        Some(Fault::MissingEntry)
    );
}

#[test]
fn episode_from_a_terminal_placement_takes_no_move() {
    let map = solved(7);
    let mut rng = StdRng::seed_from_u64(1);
    let goal = run_episode(&map, field((3, 3), (0, 0)), &mut rng).unwrap();
    assert_eq!(goal.steps, 0);
    assert_eq!(goal.outcome, Outcome::Won);
    assert_eq!(goal.expected, Utility::Finite(0));
    assert_eq!((goal.sheep, goal.dog), (Sheep::at(3, 3), Dog::at(0, 0)));
    let met = run_episode(&map, field((5, 1), (5, 1)), &mut rng).unwrap();
    assert_eq!(met.steps, 0);
    assert_eq!(met.outcome, Outcome::Collided);
    assert_eq!(met.expected, Utility::Infinite);
    let both = run_episode(&map, field((3, 3), (3, 3)), &mut rng).unwrap();
    assert_eq!(both.steps, 0);
    assert_eq!(both.outcome, Outcome::Won);
}

#[test]
fn episode_needs_the_value_of_its_start() {
    let mut rng = StdRng::seed_from_u64(1);
    let empty = UtilityMap::new(7);
    assert_eq!(
        run_episode(&empty, field((0, 0), (6, 6)), &mut rng),
        Err(Fault::MissingEntry)
    );
    assert_eq!(
        run_episode(&empty, field((3, 3), (6, 6)), &mut rng),
        Err(Fault::MissingEntry)
    );
    let mut lone = UtilityMap::new(7);
    assert!(lone.insert(Sheep::at(0, 0), Dog::at(6, 6), Utility::Finite(1)));
    assert_eq!(
        run_episode(&lone, field((0, 0), (6, 6)), &mut rng),
        Err(Fault::MissingEntry)
    );
}

#[test]
fn episode_with_a_boxed_in_dog_fails() {
    let map = solved(7);
    let mut rng = StdRng::seed_from_u64(1);
    assert_eq!(
        run_episode(&map, field((3, 2), (3, 3)), &mut rng),
        Err(Fault::NoMove)
    );
}

#[test]
fn episode_on_a_solved_table_is_won_within_the_budget() {
    let map = solved(7);
    for seed in 0..25u64 {
        for sheep in [(0, 0), (6, 6), (0, 6), (6, 0)] {
            let mut rng = StdRng::seed_from_u64(seed);
            let start = field(sheep, (3, 2));
            let expected = map.get(start.sheep, start.dog).unwrap();
            let report = run_episode(&map, start, &mut rng).unwrap();
            assert_eq!(
                report.outcome,
                Outcome::Won,
                "seed {} sheep {:?}",
                seed,
                sheep
            );
            assert!(report.steps >= 1 && report.steps <= STEP_BUDGET);
            assert_eq!(report.sheep, Sheep::at(3, 3));
            assert_eq!(report.expected, expected);
        }
    }
}

#[test]
fn episode_is_fixed_by_the_seed() {
    let map = solved(7);
    let mut first = StdRng::seed_from_u64(99);
    let mut second = StdRng::seed_from_u64(99);
    let one = run_episode(&map, field((6, 6), (3, 2)), &mut first);
    let other = run_episode(&map, field((6, 6), (3, 2)), &mut second);
    assert_eq!(one, other);
}

#[test]
fn episode_on_a_poor_table_may_expire() {
    // A table that values every placement alike gives the dog nothing to go
    // by: it takes the first of its moves, turn after turn.
    let mut flat = seed_utility_map(7);
    for sx in 0..7 {
        for sy in 0..7 {
            for dx in 0..7 {
                for dy in 0..7 {
                    if flat.get(Sheep::at(sx, sy), Dog::at(dx, dy)).is_some() {
                        flat.insert(Sheep::at(sx, sy), Dog::at(dx, dy), Utility::Finite(1));
                    }
                }
            }
        }
    }
    let mut expired = 0;
    for seed in 0..20u64 {
        let mut rng = StdRng::seed_from_u64(seed);
        let report = run_episode(&flat, field((6, 6), (0, 0)), &mut rng).unwrap();
        match report.outcome {
            Outcome::Expired => {
                assert_eq!(report.steps, STEP_BUDGET + 1);
                expired += 1;
            }
            Outcome::Won => {
                assert!(report.steps <= STEP_BUDGET);
                assert_eq!(report.sheep, Sheep::at(3, 3));
            }
            Outcome::Collided => {
                assert!(report.steps <= STEP_BUDGET);
                assert_eq!(
                    (report.sheep.x, report.sheep.y),
                    (report.dog.x, report.dog.y)
                );
            }
        }
    }
    assert!(expired > 0);
}

#[test]
fn best_start_has_the_least_sum_over_the_sheeps_starts() {
    let map = solved(7);
    let start = find_best_starting_location(&map).unwrap();
    assert_eq!(start.size(), 7);
    assert_eq!(start.sheep, Sheep::at(0, 0));
    let board = Field::sized(7);
    let mut best: Option<((i32, i32), Utility)> = None;
    for dy in 0..7 {
        for dx in 0..7 {
            if !board.is_open_at(dx, dy) {
                continue;
            }
            let mut sum = Utility::Finite(0);
            for sy in 0..7 {
                for sx in 0..7 {
                    if board.is_open_at(sx, sy) && (sx, sy) != (dx, dy) {
                        sum = sum.plus(map.get(Sheep::at(sx, sy), Dog::at(dx, dy)).unwrap());
                    }
                }
            }
            let better = match best {
                Some((_, least)) => sum.is_below(least),
                None => true,
            };
            if better {
                best = Some(((dx, dy), sum));
            }
        }
    }
    let (place, least) = best.unwrap();
    assert_eq!((start.dog.x, start.dog.y), place);
    assert!(least.is_below(Utility::Infinite));
    assert!(board.is_open_at(start.dog.x, start.dog.y));
}

#[test]
fn best_start_on_a_flat_table_is_the_first_open_cell() {
    let mut flat = UtilityMap::new(3);
    for sheep in [(1, 0), (1, 1)] {
        for dog in [(1, 0), (1, 1)] {
            assert!(flat.insert(
                Sheep::at(sheep.0, sheep.1),
                Dog::at(dog.0, dog.1),
                Utility::Finite(5)
            ));
        }
    }
    let start = find_best_starting_location(&flat).unwrap();
    assert_eq!(start.dog, Dog::at(1, 0));
    let mut tilted = UtilityMap::new(3);
    assert!(tilted.insert(Sheep::at(1, 1), Dog::at(1, 0), Utility::Finite(5)));
    assert!(tilted.insert(Sheep::at(1, 0), Dog::at(1, 1), Utility::Finite(4)));
    assert_eq!(
        find_best_starting_location(&tilted).unwrap().dog,
        Dog::at(1, 1)
    );
}

#[test]
fn best_start_needs_every_start_valued() {
    assert_eq!(
        find_best_starting_location(&UtilityMap::new(7)).err(),
        Some(Fault::MissingEntry)
    );
    let mut lone = UtilityMap::new(3);
    assert!(lone.insert(Sheep::at(1, 1), Dog::at(1, 0), Utility::Finite(5)));
    assert_eq!(
        find_best_starting_location(&lone).err(),
        Some(Fault::MissingEntry)
    );
}

#[test]
fn simulation_picks_its_own_start() {
    let map = solved(7);
    for seed in 0..20u64 {
        let mut rng = StdRng::seed_from_u64(seed);
        let report = run_simulation(&map, &mut rng).unwrap();
        match report.outcome {
            Outcome::Won => assert_eq!(report.sheep, Sheep::at(3, 3)),
            Outcome::Collided => {
                assert_eq!(
                    (report.sheep.x, report.sheep.y),
                    (report.dog.x, report.dog.y)
                )
            }
            Outcome::Expired => assert_eq!(report.steps, STEP_BUDGET + 1),
        }
    }
    let mut rng = StdRng::seed_from_u64(0);
    assert_eq!(
        run_simulation(&UtilityMap::new(7), &mut rng),
        Err(Fault::MissingEntry)
    );
}

#[test]
fn tally_counts_each_game_once() {
    let mut tally = BatchReport::new();
    assert_eq!(tally.episodes, 0);
    assert_eq!(tally.mean_deviation(), None);
    tally.record(&won(12, 10_000_000));
    tally.record(&won(7, 8_500_000));
    tally.record(&ended(Outcome::Collided, 3));
    tally.record(&ended(Outcome::Expired, 251));
    tally.record(&Err(Fault::NoMove));
    tally.record(&Err(Fault::MissingEntry));
    assert_eq!(tally.episodes, 6);
    assert_eq!(tally.won, 2);
    assert_eq!(tally.collided, 1);
    assert_eq!(tally.expired, 1);
    assert_eq!(tally.failed, 2);
    assert_eq!(tally.won_moves, Utility::Finite(19_000_000));
    assert_eq!(tally.won_expected, Utility::Finite(18_500_000));
    assert_eq!(tally.mean_deviation(), Some(250_000));
    assert_eq!(tally.win_rate(), Some(333_333));
    assert_eq!(tally.expiration_rate(), Some(166_666));
}

#[test]
fn rates_need_a_game_played() {
    let mut tally = BatchReport::new();
    assert_eq!(tally.win_rate(), None);
    assert_eq!(tally.expiration_rate(), None);
    tally.record(&won(4, 4_000_000));
    assert_eq!(tally.win_rate(), Some(1_000_000));
    assert_eq!(tally.expiration_rate(), Some(0));
    tally.record(&ended(Outcome::Expired, 251));
    tally.record(&ended(Outcome::Expired, 251));
    tally.record(&ended(Outcome::Collided, 9));
    assert_eq!(tally.win_rate(), Some(250_000));
    assert_eq!(tally.expiration_rate(), Some(500_000));
}

#[test]
fn deviation_is_moves_made_less_moves_expected() {
    assert_eq!(won(12, 10_000_000).unwrap().deviation(), Some(2_000_000));
    assert_eq!(won(1, 2_500_000).unwrap().deviation(), Some(-1_500_000));
    assert_eq!(won(0, 0).unwrap().deviation(), Some(0));
    let unbounded = EpisodeReport {
        steps: 3,
        expected: Utility::Infinite,
        outcome: Outcome::Won,
        sheep: Sheep::at(3, 3),
        dog: Dog::at(0, 0),
    };
    assert_eq!(unbounded.deviation(), None);
    let map = solved(7);
    let mut rng = StdRng::seed_from_u64(4);
    let start = field((6, 6), (3, 2));
    let expected = match map.get(start.sheep, start.dog) {
        Some(Utility::Finite(parts)) => parts as i64,
        other => panic!("the start is valued {:?}", other),
    };
    let report = run_episode(&map, start, &mut rng).unwrap();
    assert_eq!(
        report.deviation(),
        Some(report.steps as i64 * 1_000_000 - expected)
    );
}

#[test]
fn mean_deviation_rounds_towards_nothing() {
    let mut quick = BatchReport::new();
    quick.record(&won(1, 2_000_001));
    quick.record(&won(1, 2_000_000));
    quick.record(&won(1, 2_000_000));
    assert_eq!(quick.mean_deviation(), Some(-1_000_000));
    let mut slow = BatchReport::new();
    slow.record(&won(3, 2_000_000));
    slow.record(&won(3, 1_999_999));
    slow.record(&won(3, 2_000_000));
    assert_eq!(slow.mean_deviation(), Some(1_000_000));
    let mut even = BatchReport::new();
    even.record(&won(3, 3_000_000));
    assert_eq!(even.mean_deviation(), Some(0));
    let mut unbounded = BatchReport::new();
    unbounded.record(&Ok(EpisodeReport {
        steps: 3,
        expected: Utility::Infinite,
        outcome: Outcome::Won,
        sheep: Sheep::at(3, 3),
        dog: Dog::at(0, 0),
    }));
    assert_eq!(unbounded.won, 1);
    assert_eq!(unbounded.mean_deviation(), None);
}

#[test]
fn batch_tallies_every_game() {
    let map = solved(7);
    let mut rng = StdRng::seed_from_u64(2024);
    let tally = run_simulations(&map, 40, &mut rng);
    assert_eq!(tally.episodes, 40);
    assert_eq!(
        tally.won + tally.collided + tally.expired + tally.failed,
        40
    );
    assert!(tally.won > 20);
    assert!(tally.mean_deviation().is_some());
    let none = run_simulations(&map, 0, &mut rng);
    assert_eq!(none, BatchReport::new());
}

#[test]
fn batch_on_an_empty_table_fails_every_game() {
    let mut rng = StdRng::seed_from_u64(2024);
    let tally = run_simulations(&UtilityMap::new(7), 5, &mut rng);
    assert_eq!(tally.episodes, 5);
    assert_eq!(tally.failed, 5);
    assert_eq!(tally.won, 0);
}
