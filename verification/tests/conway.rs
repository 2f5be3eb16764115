use deskthing::conway::{Cell, Conway, Rule, _CONWAY};
use deskthing::grid::Grid;
use deskthing::input::Input;
use deskthing::rng;
use std::time::Duration;

const TICK: Duration = Duration::from_millis(100);

/// Builds a board from an ASCII picture: `#` alive, anything else dead.
fn board(rows: &[&str]) -> Conway {
    let height = rows.len();
    let width = rows[0].len();

    let grid = Grid::from_generator(width, height, |x, y| {
        Cell::new(rows[y].as_bytes()[x] == b'#')
    });

    Conway::new(_CONWAY, grid, width, height)
}

/// Renders the live cells back out as an ASCII picture.
fn render(sim: &Conway) -> Vec<String> {
    (0..sim.rows() as isize)
        .map(|y| {
            (0..sim.columns() as isize)
                .map(|x| {
                    if sim.cell(x, y).unwrap().is_alive() {
                        '#'
                    } else {
                        '.'
                    }
                })
                .collect()
        })
        .collect()
}

fn tick(sim: &mut Conway, times: usize) {
    for _ in 0..times {
        sim.update(TICK, &Input::none());
    }
}

#[test]
fn a_block_is_a_still_life() {
    let mut sim = board(&["....", ".##.", ".##.", "...."]);
    let before = render(&sim);

    tick(&mut sim, 4);

    assert_eq!(before, render(&sim));
}

#[test]
fn a_blinker_oscillates_with_period_two() {
    let mut sim = board(&[".....", ".....", ".###.", ".....", "....."]);
    let horizontal = render(&sim);

    tick(&mut sim, 1);
    let vertical = render(&sim);

    assert_ne!(horizontal, vertical, "blinker did not move");
    assert_eq!(
        vec![".....", "..#..", "..#..", "..#..", "....."],
        vertical,
        "expected the vertical phase"
    );

    tick(&mut sim, 1);
    assert_eq!(horizontal, render(&sim), "did not return after two ticks");
}

#[test]
fn a_glider_walks_one_cell_diagonally_every_four_ticks() {
    let mut sim = board(&[
        "..........",
        "..#.......",
        "...#......",
        ".###......",
        "..........",
        "..........",
        "..........",
        "..........",
    ]);

    tick(&mut sim, 4);

    // The same glider, translated one cell down and one cell right.
    assert_eq!(
        [
            "..........",
            "..........",
            "...#......",
            "....#.....",
            "..###.....",
            "..........",
            "..........",
            "..........",
        ]
        .map(str::to_string),
        render(&sim).as_slice()
    );
}

#[test]
fn an_empty_board_stays_empty() {
    let mut sim = board(&["....", "....", "...."]);
    tick(&mut sim, 10);

    assert!(render(&sim).iter().all(|row| !row.contains('#')));
}

#[test]
fn a_lone_cell_dies_of_loneliness() {
    let mut sim = board(&["...", ".#.", "..."]);
    tick(&mut sim, 1);

    assert!(!sim.cell(1, 1).unwrap().is_alive());
}

#[test]
fn ticks_are_paced_by_the_interval_not_the_call_count() {
    let mut sim = board(&[".....", ".....", ".###.", ".....", "....."]);
    let start = render(&sim);

    // Ten updates that together add up to less than one interval.
    for _ in 0..10 {
        sim.update(TICK / 20, &Input::none());
    }
    assert_eq!(start, render(&sim), "advanced before the interval elapsed");

    // One more takes the total past it.
    for _ in 0..11 {
        sim.update(TICK / 20, &Input::none());
    }
    assert_ne!(start, render(&sim), "never advanced");
}

#[test]
fn a_huge_step_does_not_spin_forever() {
    let mut sim = board(&[".....", ".....", ".###.", ".....", "....."]);

    // An hour of catch-up is capped, not simulated tick by tick.
    sim.update(Duration::from_secs(3600), &Input::none());

    assert_eq!(Duration::ZERO, sim.unspent());
}

#[test]
fn a_rulestring_is_parsed_into_birth_and_survival_sets() {
    let rule = Rule::from_rulestring("B3/S23");

    assert!(rule.apply(false, 3), "three neighbours should birth");
    assert!(!rule.apply(false, 2), "two neighbours should not birth");
    assert!(rule.apply(true, 2), "two neighbours should survive");
    assert!(rule.apply(true, 3), "three neighbours should survive");
    assert!(!rule.apply(true, 4), "four neighbours should die");
}

#[test]
fn the_same_seed_produces_the_same_board() {
    // A 60% fill of a 20 by 20 board leaves a margin of 4 dead cells: the
    // random centre spans columns and rows 5 to 15.
    let a = Conway::random(_CONWAY, 5, 16, 5, 16, 20, 20, rng::seeded(7));
    let b = Conway::random(_CONWAY, 5, 16, 5, 16, 20, 20, rng::seeded(7));

    assert_eq!(render(&a), render(&b));
}

#[test]
fn a_random_board_is_dead_outside_its_centre() {
    let sim = Conway::random(_CONWAY, 5, 16, 5, 16, 20, 20, rng::seeded(3));
    let rows = render(&sim);

    for (y, row) in rows.iter().enumerate() {
        for (x, c) in row.chars().enumerate() {
            if !(5..16).contains(&x) || !(5..16).contains(&y) {
                assert_eq!('.', c, "({x}, {y}) alive outside the centre");
            }
        }
    }
    assert!(rows.iter().any(|row| row.contains('#')), "nothing was filled");
}

#[test]
fn other_rules_parse_their_own_counts() {
    let maze = Rule::from_rulestring("B3/S12345");
    assert!(maze.apply(true, 1));
    assert!(maze.apply(true, 5));
    assert!(!maze.apply(true, 6));
    assert!(!maze.apply(false, 1));

    // Only the first slash separates; anything that is not a digit is ignored.
    let odd = Rule::from_rulestring("x2/s1/8");
    assert!(odd.apply(false, 2));
    assert!(odd.apply(true, 1));
    assert!(odd.apply(true, 8));
    assert!(!odd.apply(true, 2));
}

#[test]
fn cells_count_generations_alive_and_dead() {
    let rule = Rule::from_rulestring("B3/S23");

    let born = Cell::new(false).apply_rule(&rule, 3);
    assert!(born.is_alive());
    assert_eq!(Some(1), born.age());
    assert_eq!(None, born.ghost_age());

    let older = born.apply_rule(&rule, 2);
    assert_eq!(Some(2), older.age());

    let dead = older.apply_rule(&rule, 0);
    assert!(!dead.is_alive());
    assert_eq!(None, dead.age());
    assert_eq!(Some(1), dead.ghost_age());

    let still_dead = dead.apply_rule(&rule, 1);
    assert_eq!(Some(2), still_dead.ghost_age());
}

#[test]
fn a_blinker_advances_by_whole_intervals_only() {
    let mut sim = board(&[".....", ".....", ".###.", ".....", "....."]);
    let start = render(&sim);

    // Two and a half intervals: two generations, half an interval owed.
    sim.update(TICK * 5 / 2, &Input::none());
    assert_eq!(start, render(&sim));
    assert_eq!(TICK / 2, sim.unspent());

    // The owed half plus another half make a third generation.
    sim.update(TICK / 2, &Input::none());
    assert_ne!(start, render(&sim));
    assert_eq!(Duration::ZERO, sim.unspent());
}

#[test]
fn four_and_a_half_intervals_run_four_generations_and_carry_the_half() {
    let mut sim = board(&[".....", ".....", ".###.", ".....", "....."]);
    let start = render(&sim);

    // Four generations of a blinker bring it back; the half interval is owed.
    sim.update(TICK * 9 / 2, &Input::none());
    assert_eq!(start, render(&sim));
    assert_eq!(TICK / 2, sim.unspent());

    // The owed half plus another half make a fifth generation.
    sim.update(TICK / 2, &Input::none());
    assert_ne!(start, render(&sim));
    assert_eq!(Duration::ZERO, sim.unspent());
}

#[test]
fn five_intervals_owed_at_once_drop_what_the_cap_leaves() {
    let mut sim = board(&[".....", ".....", ".###.", ".....", "....."]);
    let start = render(&sim);

    // Four generations run; the fifth interval is dropped, not carried.
    sim.update(TICK * 5 + TICK / 2, &Input::none());
    assert_eq!(start, render(&sim));
    assert_eq!(Duration::ZERO, sim.unspent());
}

#[test]
fn a_board_from_draws_fills_the_region_row_by_row() {
    // A 4 by 3 board whose region is columns 1..3 and rows 1..5: the region
    // is clipped to rows 1 and 2, so four draws fill it.
    let sim = Conway::from_draws(_CONWAY, 1, 3, 1, 5, 4, 3, &[true, false, false, true]);
    assert_eq!(vec!["....", ".#..", "..#."], render(&sim));
    assert!(sim.cell(1, 1).unwrap().age().is_none());
    assert!(sim.cell(1, 1).unwrap().ghost_age().is_none());
}

#[test]
fn a_random_board_is_a_board_from_draws() {
    let sim = Conway::random(_CONWAY, 1, 3, 0, 2, 4, 2, rng::seeded(11));
    let alive: Vec<bool> = (0..2)
        .flat_map(|y| (1..3).map(move |x| (x, y)))
        .map(|(x, y)| sim.cell(x, y).unwrap().is_alive())
        .collect();
    let again = Conway::from_draws(_CONWAY, 1, 3, 0, 2, 4, 2, &alive);
    assert_eq!(render(&again), render(&sim));
}
