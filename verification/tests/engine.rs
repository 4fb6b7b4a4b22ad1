use advent2023::climb::{climb_along, fewest_steps, ClimbRule};
use advent2023::compass::{heading_for, moving_index, neighbors, reverse_of, step_from, Moving};
use advent2023::days::day17::{
    adjacent, cheapest_run, far_corner, get_value, shortest_path, shortest_path2, RunLengthRule,
};
use advent2023::frontier::{Frontier, FrontierEntry};
use advent2023::relaxation::RelaxationTable;
use advent2023::rule::{Goal, TransitionRule};
use advent2023::search::{cost_field, explore, search, search_from_any};
use advent2023::state::{heading_index, ExtendedState};
use advent2023::surface::{EngineError, Surface};
use std::collections::HashMap;

fn digits(lines: &[&str]) -> Surface<u32> {
    Surface::new(lines.iter().map(|l| l.chars().map(|c| c.to_digit(10).unwrap()).collect()).collect())
        .unwrap()
}

fn state(row: isize, col: isize, heading: Option<Moving>, run_length: u32) -> ExtendedState {
    ExtendedState { position: (row, col), heading, run_length }
}

/// Least costs by plain repeated relaxation over every state reached.
fn exhaustive<R: TransitionRule>(rule: &R, start: ExtendedState) -> HashMap<usize, u64> {
    let mut best: HashMap<usize, u64> = HashMap::new();
    let mut states: HashMap<usize, ExtendedState> = HashMap::new();
    best.insert(rule.key(&start), 0);
    states.insert(rule.key(&start), start);
    loop {
        let mut changed = false;
        let known: Vec<(usize, ExtendedState)> = states.iter().map(|(k, s)| (*k, *s)).collect();
        for (k, s) in known {
            let here = best[&k];
            for (next, delta) in rule.expand(&s) {
                let nk = rule.key(&next);
                let total = here + delta;
                if best.get(&nk).map_or(true, |old| total < *old) {
                    best.insert(nk, total);
                    states.insert(nk, next);
                    changed = true;
                }
            }
        }
        if !changed {
            return best;
        }
    }
}

fn synthetic(rows: usize, cols: usize, seed: u64) -> Surface<u32> {
    let mut x = seed;
    let mut cells = Vec::new();
    for _ in 0..rows {
        let mut row = Vec::new();
        for _ in 0..cols {
            x = x.wrapping_mul(6364136223846793005).wrapping_add(1442695040888963407);
            row.push(((x >> 33) % 10) as u32);
        }
        cells.push(row);
    }
    Surface::new(cells).unwrap()
}

fn all_states(rule: &RunLengthRule, rows: usize, cols: usize) -> Vec<ExtendedState> {
    let mut out = Vec::new();
    let headings =
        [None, Some(Moving::Right), Some(Moving::Left), Some(Moving::Up), Some(Moving::Down)];
    for r in 0..rows {
        for c in 0..cols {
            for h in headings {
                for run in 0..=rule.max_run {
                    out.push(state(r as isize, c as isize, h, run));
                }
            }
        }
    }
    out
}

#[test]
fn surface_new_rejects_ragged_and_empty_rows() {
    assert_eq!(Surface::<u32>::new(vec![]).err(), Some(EngineError::MalformedGrid));
    assert_eq!(Surface::<u32>::new(vec![vec![]]).err(), Some(EngineError::MalformedGrid));
    assert_eq!(
        Surface::new(vec![vec![1, 2], vec![3]]).err(),
        Some(EngineError::MalformedGrid)
    );
    assert_eq!(
        Surface::new(vec![vec![1], vec![2, 3]]).err(),
        Some(EngineError::MalformedGrid)
    );
    assert_eq!(
        Surface::new(vec![vec![1, 2], vec![3, 4], vec![]]).err(),
        Some(EngineError::MalformedGrid)
    );
    let ok = Surface::new(vec![vec![1, 2, 3], vec![4, 5, 6]]).unwrap();
    assert_eq!(ok.height(), 2);
    assert_eq!(ok.width(), 3);
    assert_eq!(ok.cells(), &vec![1, 2, 3, 4, 5, 6]);
}

#[test]
fn surface_value_at_checks_both_bounds() {
    let s = Surface::new(vec![vec![1, 2, 3], vec![4, 5, 6]]).unwrap();
    assert_eq!(s.value_at((0, 0)), Some(1));
    assert_eq!(s.value_at((0, 2)), Some(3));
    assert_eq!(s.value_at((1, 0)), Some(4));
    assert_eq!(s.value_at((1, 2)), Some(6));
    assert_eq!(s.value_at((2, 0)), None);
    assert_eq!(s.value_at((0, 3)), None);
    assert_eq!(s.value_at((-1, 0)), None);
    assert_eq!(s.value_at((0, -1)), None);
    assert_eq!(s.value_at((isize::MIN, isize::MAX)), None);
    assert!(s.in_bounds((1, 2)));
    assert!(!s.in_bounds((1, 3)));
}

#[test]
fn surface_replaced_changes_one_cell() {
    let s = Surface::new(vec![vec![1, 2, 3], vec![4, 5, 6]]).unwrap();
    let t = s.replaced((1, 1), 9);
    assert_eq!(t.cells(), &vec![1, 2, 3, 4, 9, 6]);
    assert_eq!(s.cells(), &vec![1, 2, 3, 4, 5, 6]);
    let u = Surface::from_cells(vec![7, 8, 9, 10], 2, 2);
    assert_eq!(u.value_at((1, 0)), Some(9));
}

#[test]
fn neighbors_are_not_filtered_by_any_grid() {
    assert_eq!(neighbors((0, 0)), vec![(0, 1), (0, -1), (1, 0), (-1, 0)]);
    assert_eq!(neighbors((5, 7)), vec![(5, 8), (5, 6), (6, 7), (4, 7)]);
    assert_eq!(
        neighbors((isize::MAX, isize::MIN)),
        vec![(isize::MAX, isize::MIN + 1), (isize::MAX - 1, isize::MIN)]
    );
    assert_eq!(
        adjacent((2, 3)),
        vec![(2, 4, Moving::Right), (2, 2, Moving::Left), (3, 3, Moving::Down), (1, 3, Moving::Up)]
    );
    assert_eq!(adjacent((isize::MIN, isize::MAX)).len(), 2);
}

#[test]
fn headings_and_their_indices() {
    assert_eq!(moving_index(Moving::Right), 0);
    assert_eq!(moving_index(Moving::Left), 1);
    assert_eq!(moving_index(Moving::Up), 2);
    assert_eq!(moving_index(Moving::Down), 3);
    assert_eq!(heading_index(None), 0);
    assert_eq!(heading_index(Some(Moving::Right)), 1);
    assert_eq!(heading_index(Some(Moving::Down)), 4);
    assert_eq!(reverse_of(Moving::Right), Moving::Left);
    assert_eq!(reverse_of(Moving::Left), Moving::Right);
    assert_eq!(reverse_of(Moving::Up), Moving::Down);
    assert_eq!(reverse_of(Moving::Down), Moving::Up);
    assert_eq!(heading_for((0, 1)), Some(Moving::Right));
    assert_eq!(heading_for((0, -1)), Some(Moving::Left));
    assert_eq!(heading_for((1, 0)), Some(Moving::Down));
    assert_eq!(heading_for((-1, 0)), Some(Moving::Up));
    assert_eq!(heading_for((1, 1)), None);
    assert_eq!(step_from((3, 3), Moving::Up), Some((2, 3)));
    assert_eq!(step_from((3, isize::MAX), Moving::Right), None);
}

#[test]
fn state_order_is_row_column_heading_run() {
    let a = state(0, 5, Some(Moving::Down), 9);
    let b = state(1, 0, None, 0);
    assert!(a.precedes(&b) && !b.precedes(&a));
    let c = state(1, 0, Some(Moving::Right), 0);
    assert!(b.precedes(&c) && !c.precedes(&b));
    let d = state(1, 0, Some(Moving::Left), 0);
    assert!(c.precedes(&d));
    let e = state(1, 0, Some(Moving::Left), 1);
    assert!(d.precedes(&e) && !e.precedes(&d));
    assert!(!e.precedes(&e));
    assert!(state(-1, 9, None, 0).precedes(&state(0, 0, None, 0)));
}

#[test]
fn frontier_pops_cheapest_first_and_breaks_ties_by_state() {
    let mut f = Frontier::new();
    assert!(f.is_empty());
    assert_eq!(f.pop(), None);
    let entries = [
        FrontierEntry { cost: 5, state: state(0, 0, None, 0) },
        FrontierEntry { cost: 3, state: state(2, 2, None, 0) },
        FrontierEntry { cost: 3, state: state(2, 1, Some(Moving::Up), 4) },
        FrontierEntry { cost: 3, state: state(2, 1, Some(Moving::Up), 2) },
        FrontierEntry { cost: 3, state: state(2, 1, Some(Moving::Left), 7) },
        FrontierEntry { cost: 0, state: state(9, 9, None, 0) },
        FrontierEntry { cost: 7, state: state(0, 0, None, 0) },
        FrontierEntry { cost: 3, state: state(2, 2, None, 0) },
        FrontierEntry { cost: u64::MAX, state: state(0, 0, None, 0) },
    ];
    for e in entries {
        f.push(e);
    }
    assert_eq!(f.len(), 9);
    let mut popped = Vec::new();
    while let Some(e) = f.pop() {
        popped.push(e);
    }
    let expected = vec![
        entries[5], entries[4], entries[3], entries[2], entries[1], entries[7], entries[0],
        entries[6], entries[8],
    ];
    assert_eq!(popped, expected);
    assert!(f.is_empty());
}

#[test]
fn frontier_sorts_many_entries() {
    let mut f = Frontier::new();
    let mut x: u64 = 12345;
    let mut costs = Vec::new();
    for _ in 0..500 {
        x = x.wrapping_mul(6364136223846793005).wrapping_add(1442695040888963407);
        let cost = (x >> 40) % 50;
        costs.push(cost);
        f.push(FrontierEntry { cost, state: state((x % 7) as isize, (x % 11) as isize, None, 0) });
    }
    costs.sort();
    let mut out = Vec::new();
    let mut last: Option<FrontierEntry> = None;
    while let Some(e) = f.pop() {
        if let Some(prev) = last {
            assert!(!e.precedes(&prev));
        }
        last = Some(e);
        out.push(e.cost);
    }
    assert_eq!(out, costs);
}

#[test]
fn relaxation_table_only_goes_down() {
    let mut t = RelaxationTable::new(4);
    assert_eq!(t.len(), 4);
    assert_eq!(t.get(2), None);
    assert!(t.relax(2, 10));
    assert_eq!(t.get(2), Some(10));
    assert!(!t.relax(2, 10));
    assert!(!t.relax(2, 11));
    assert_eq!(t.get(2), Some(10));
    assert!(t.relax(2, 9));
    assert_eq!(t.get(2), Some(9));
    assert!(t.relax(0, u64::MAX));
    assert!(t.relax(0, 0));
    assert!(!t.relax(0, 0));
    assert_eq!(t.get(1), None);
    assert_eq!(t.into_costs(), vec![Some(0), None, Some(9), None]);
}

#[test]
fn run_length_rule_rejects_bad_bounds() {
    let map = digits(&["12", "34"]);
    assert_eq!(RunLengthRule::new(&map, 4, 3).err(), Some(EngineError::InvalidParameters));
    assert_eq!(RunLengthRule::new(&map, 1, 0).err(), Some(EngineError::InvalidParameters));
    assert_eq!(
        RunLengthRule::new(&map, 0, u32::MAX).err(),
        Some(EngineError::InvalidParameters)
    );
    assert!(RunLengthRule::new(&map, 0, 0).is_ok());
    assert!(RunLengthRule::new(&map, 3, 3).is_ok());
    assert!(RunLengthRule::new(&map, 4, 10).is_ok());
    assert_eq!(cheapest_run(&map, (1, 1), 5, 4), Err(EngineError::InvalidParameters));
    assert_eq!(cheapest_run(&map, (1, 1), 0, 0), Err(EngineError::Unreachable));
    assert_eq!(cheapest_run(&map, (0, 0), 0, 0), Ok(0));
}

#[test]
fn expand_rejects_a_turn_after_two_steps() {
    let map = synthetic(6, 6, 1);
    let rule = RunLengthRule::new(&map, 4, 10).unwrap();
    let from = state(2, 2, Some(Moving::Right), 2);
    let moves = rule.expand(&from);
    assert_eq!(moves.len(), 1);
    assert_eq!(moves[0].0, state(2, 3, Some(Moving::Right), 3));
    assert_eq!(moves[0].1, get_value(&map, (2, 3)).unwrap() as u64);
    for turn in [Moving::Up, Moving::Down, Moving::Left] {
        assert_eq!(rule.try_move(&from, turn), None);
    }
    let ready = state(2, 2, Some(Moving::Right), 4);
    let headings: Vec<Option<Moving>> = rule.expand(&ready).iter().map(|m| m.0.heading).collect();
    assert_eq!(headings, vec![Some(Moving::Right), Some(Moving::Down), Some(Moving::Up)]);
    let runs: Vec<u32> = rule.expand(&ready).iter().map(|m| m.0.run_length).collect();
    assert_eq!(runs, vec![5, 1, 1]);
}

#[test]
fn expand_rejects_an_eleventh_step() {
    let map = synthetic(3, 14, 2);
    let rule = RunLengthRule::new(&map, 4, 10).unwrap();
    let tenth = state(1, 10, Some(Moving::Right), 10);
    assert_eq!(rule.try_move(&tenth, Moving::Right), None);
    let headings: Vec<Option<Moving>> = rule.expand(&tenth).iter().map(|m| m.0.heading).collect();
    assert_eq!(headings, vec![Some(Moving::Down), Some(Moving::Up)]);
    let ninth = state(1, 9, Some(Moving::Right), 9);
    assert_eq!(
        rule.try_move(&ninth, Moving::Right),
        Some((state(1, 10, Some(Moving::Right), 10), get_value(&map, (1, 10)).unwrap() as u64))
    );
    assert!(!rule.admits(&state(1, 10, Some(Moving::Right), 11)));
    assert!(rule.admits(&tenth));
}

#[test]
fn expand_never_reverses_and_starts_free() {
    let map = synthetic(5, 5, 3);
    let rule = RunLengthRule::new(&map, 0, 3).unwrap();
    for h in [Moving::Right, Moving::Left, Moving::Up, Moving::Down] {
        for run in 0..=3u32 {
            let from = state(2, 2, Some(h), run);
            for (next, _) in rule.expand(&from) {
                assert_ne!(next.heading, Some(reverse_of(h)));
                assert!(next.run_length <= 3);
                if next.heading == Some(h) {
                    assert_eq!(next.run_length, run + 1);
                } else {
                    assert_eq!(next.run_length, 1);
                }
            }
            assert_eq!(rule.expand(&from).len(), if run < 3 { 3 } else { 2 });
        }
    }
    let start = ExtendedState::at((2, 2));
    let first: Vec<ExtendedState> = rule.expand(&start).iter().map(|m| m.0).collect();
    assert_eq!(
        first,
        vec![
            state(2, 3, Some(Moving::Right), 1),
            state(2, 1, Some(Moving::Left), 1),
            state(3, 2, Some(Moving::Down), 1),
            state(1, 2, Some(Moving::Up), 1),
        ]
    );
    let strict = RunLengthRule::new(&map, 4, 10).unwrap();
    assert_eq!(strict.expand(&start).len(), 4);
    let corner: Vec<ExtendedState> =
        rule.expand(&ExtendedState::at((0, 0))).iter().map(|m| m.0).collect();
    assert_eq!(corner, vec![state(0, 1, Some(Moving::Right), 1), state(1, 0, Some(Moving::Down), 1)]);
}

#[test]
fn keys_are_dense_and_distinct() {
    let map = synthetic(3, 4, 4);
    let rule = RunLengthRule::new(&map, 1, 2).unwrap();
    assert_eq!(rule.table_size(), 3 * 4 * 5 * 3);
    let mut seen = vec![false; rule.table_size()];
    for s in all_states(&rule, 3, 4) {
        assert!(rule.admits(&s));
        let k = rule.key(&s);
        assert!(!seen[k]);
        seen[k] = true;
    }
    assert!(seen.iter().all(|b| *b));
    assert_eq!(rule.key(&state(0, 0, None, 0)), 0);
    assert_eq!(rule.key(&state(0, 0, None, 2)), 2);
    assert_eq!(rule.key(&state(0, 0, Some(Moving::Right), 0)), 3);
    assert_eq!(rule.key(&state(0, 1, None, 0)), 15);
    assert_eq!(rule.key(&state(1, 0, None, 0)), 60);
    assert_eq!(rule.key(&state(2, 3, Some(Moving::Down), 2)), 179);
}

#[test]
fn heat_loss_on_a_known_grid() {
    let map = digits(&[
        "2413432311323",
        "3215453535623",
        "3255245654254",
        "3446585845452",
        "4546657867536",
        "1438598798454",
        "4457876987766",
        "3637877979653",
        "4654967986887",
        "4564679986453",
        "1224686865563",
        "2546548887735",
        "4322674655533",
    ]);
    let end = far_corner(&map);
    assert_eq!(end, (12, 12));
    assert_eq!(shortest_path(&map, end), Ok(102));
    assert_eq!(shortest_path2(&map, end), Ok(94));
    assert_eq!(shortest_path(&map, (0, 0)), Ok(0));
    assert_eq!(shortest_path(&map, (13, 12)), Err(EngineError::Unreachable));
    assert_eq!(shortest_path(&map, (-1, 0)), Err(EngineError::Unreachable));
}

#[test]
fn heat_loss_by_hand() {
    let map = digits(&["11111", "99999"]);
    // Three moves along the top, then a detour through the bottom row.
    assert_eq!(shortest_path(&map, (0, 4)), Ok(22));
    assert_eq!(shortest_path(&map, (1, 4)), Ok(21));
    // Four moves in a row are allowed here.
    assert_eq!(shortest_path2(&map, (0, 4)), Ok(4));
    assert_eq!(shortest_path2(&map, (1, 4)), Ok(13));
    assert_eq!(cheapest_run(&map, (0, 4), 0, 4), Ok(4));
    // Every move has to turn.
    assert_eq!(cheapest_run(&map, (0, 4), 0, 1), Ok(40));
    assert_eq!(cheapest_run(&map, (0, 2), 0, 1), Ok(20));
    // With a minimum run of four no turn fits into two columns.
    let narrow = digits(&["11", "99"]);
    assert_eq!(shortest_path2(&narrow, (1, 1)), Err(EngineError::Unreachable));
    assert_eq!(shortest_path2(&narrow, (0, 1)), Ok(1));
    assert_eq!(shortest_path(&narrow, (1, 1)), Ok(10));
}

#[test]
fn search_matches_exhaustive_relaxation_on_small_grids() {
    for seed in 0..12u64 {
        let rows = 2 + (seed % 5) as usize;
        let cols = 2 + ((seed / 2) % 5) as usize;
        let map = synthetic(rows, cols, seed + 100);
        for (min_run, max_run) in [(0u32, 3u32), (1, 2), (2, 4), (4, 10), (0, 1)] {
            let rule = RunLengthRule::new(&map, min_run, max_run).unwrap();
            let start = ExtendedState::at((0, 0));
            let brute = exhaustive(&rule, start);
            let table = cost_field(&rule, start).into_costs();
            assert_eq!(table.len(), rule.table_size());
            for s in all_states(&rule, rows, cols) {
                let k = rule.key(&s);
                assert_eq!(table[k], brute.get(&k).copied(), "{:?}", s);
            }
            for r in 0..rows {
                for c in 0..cols {
                    let cell = (r as isize, c as isize);
                    let mut least: Option<u64> = None;
                    for s in all_states(&rule, rows, cols) {
                        if s.position == cell {
                            if let Some(cost) = table[rule.key(&s)] {
                                least = Some(least.map_or(cost, |l| l.min(cost)));
                            }
                        }
                    }
                    let found = search(&rule, start, &Goal::Cell(cell));
                    assert_eq!(found.ok(), least);
                    assert_eq!(found.err().is_some(), least.is_none());
                }
            }
        }
    }
}

#[test]
fn search_twice_gives_the_same_answer() {
    let map = synthetic(6, 6, 77);
    let rule = RunLengthRule::new(&map, 1, 3).unwrap();
    let start = ExtendedState::at((0, 0));
    let goal = Goal::Cell((5, 5));
    let (first, table1) = explore(&rule, start, &goal);
    let (second, table2) = explore(&rule, start, &goal);
    assert_eq!(first, second);
    assert!(first.is_some());
    assert_eq!(table1.into_costs(), table2.into_costs());
    assert_eq!(search(&rule, start, &goal), search(&rule, start, &goal));
}

#[test]
fn zero_cost_blocks_are_handled() {
    let map = digits(&["000", "090", "000"]);
    assert_eq!(shortest_path(&map, (2, 2)), Ok(0));
    assert_eq!(shortest_path(&map, (1, 1)), Ok(9));
}

#[test]
fn climb_allows_one_up_and_any_way_down() {
    let heights = Surface::new(vec![vec![0, 1, 2], vec![9, 9, 3], vec![6, 5, 4]]).unwrap();
    assert_eq!(climb_along(&heights, (0, 0), Moving::Right), Some((0, 1)));
    assert_eq!(climb_along(&heights, (0, 0), Moving::Down), None);
    assert_eq!(climb_along(&heights, (0, 0), Moving::Left), None);
    assert_eq!(climb_along(&heights, (1, 0), Moving::Up), Some((0, 0)));
    assert_eq!(climb_along(&heights, (1, 1), Moving::Left), Some((1, 0)));
    let rule = ClimbRule { heights: &heights };
    let start = ExtendedState::at((0, 0));
    assert_eq!(search(&rule, start, &Goal::Cell((2, 0))), Ok(6));
    assert_eq!(search(&rule, start, &Goal::Cell((1, 1))), Err(EngineError::Unreachable));
    assert_eq!(search(&rule, ExtendedState::at((2, 0)), &Goal::Cell((1, 1))), Err(EngineError::Unreachable));
    assert_eq!(search(&rule, ExtendedState::at((1, 1)), &Goal::Cell((0, 0))), Ok(2));
    let table = cost_field(&rule, start).into_costs();
    assert_eq!(
        table,
        vec![Some(0), Some(1), Some(2), None, None, Some(3), Some(6), Some(5), Some(4)]
    );
}

#[test]
fn fewest_steps_takes_the_best_start() {
    let heights = Surface::new(vec![
        vec![0, 0, 0, 0, 0],
        vec![9, 9, 9, 9, 1],
        vec![0, 1, 2, 3, 2],
    ])
    .unwrap();
    let goal = Goal::Cell((2, 3));
    assert_eq!(fewest_steps(&heights, &vec![(0, 0)], &goal), Ok(7));
    assert_eq!(fewest_steps(&heights, &vec![(2, 0)], &goal), Ok(3));
    assert_eq!(fewest_steps(&heights, &vec![(0, 0), (2, 0), (0, 3)], &goal), Ok(3));
    assert_eq!(fewest_steps(&heights, &vec![(0, 0), (0, 3)], &goal), Ok(4));
    assert_eq!(fewest_steps(&heights, &vec![], &goal), Err(EngineError::Unreachable));
    assert_eq!(
        fewest_steps(&heights, &vec![(0, 0)], &Goal::Cell((1, 0))),
        Err(EngineError::Unreachable)
    );
    assert_eq!(
        fewest_steps(&heights, &vec![(0, 0), (3, 0)], &goal),
        Err(EngineError::InvalidParameters)
    );
    let rule = ClimbRule { heights: &heights };
    let starts = vec![ExtendedState::at((0, 0)), ExtendedState::at((2, 1))];
    assert_eq!(search_from_any(&rule, &starts, &goal), Ok(2));
}
