use advent2023::boundary::{get_inside_count, is_loop_map};
use advent2023::compass::Moving;
use advent2023::days::day10::{
    adjacent_pipes, find_start, get_value, has_opening, loop_map, shortest_path, valid_pipe,
    PipeRule,
};
use advent2023::rule::{Goal, TransitionRule};
use advent2023::search::{cost_field, search};
use advent2023::state::ExtendedState;
use advent2023::surface::{EngineError, Surface};

fn grid(lines: &[&str]) -> Surface<char> {
    Surface::new(lines.iter().map(|l| l.chars().collect()).collect()).unwrap()
}

fn prepared(lines: &[&str], replacement: char) -> (Surface<char>, (isize, isize)) {
    let tiles = grid(lines);
    let start = find_start(&tiles).unwrap();
    (tiles.replaced(start, replacement), start)
}

fn enclosed(lines: &[&str], replacement: char) -> u64 {
    let (tiles, start) = prepared(lines, replacement);
    let (_, steps) = shortest_path(&tiles, start);
    let map = loop_map(&tiles, &steps);
    assert!(is_loop_map(&map));
    get_inside_count(&map)
}

#[test]
fn get_value_is_none_outside_the_grid() {
    let tiles = grid(&["F7", "LJ"]);
    assert_eq!(get_value(&tiles, (0, 0)), Some('F'));
    assert_eq!(get_value(&tiles, (1, 1)), Some('J'));
    assert_eq!(get_value(&tiles, (-1, 0)), None);
    assert_eq!(get_value(&tiles, (0, -1)), None);
    assert_eq!(get_value(&tiles, (2, 0)), None);
    assert_eq!(get_value(&tiles, (0, 2)), None);
    assert_eq!(get_value(&tiles, (isize::MAX, isize::MIN)), None);
}

#[test]
fn openings_of_every_symbol() {
    let table = [
        ('-', [true, true, false, false]),
        ('|', [false, false, true, true]),
        ('L', [true, false, true, false]),
        ('F', [true, false, false, true]),
        ('J', [false, true, true, false]),
        ('7', [false, true, false, true]),
        ('.', [false, false, false, false]),
        ('S', [false, false, false, false]),
    ];
    for (symbol, expected) in table {
        assert_eq!(has_opening(symbol, Moving::Right), expected[0]);
        assert_eq!(has_opening(symbol, Moving::Left), expected[1]);
        assert_eq!(has_opening(symbol, Moving::Up), expected[2]);
        assert_eq!(has_opening(symbol, Moving::Down), expected[3]);
    }
}

#[test]
fn valid_pipe_needs_openings_on_both_sides() {
    let tiles = grid(&["F-7", "|.|", "L-J"]);
    assert_eq!(valid_pipe(&tiles, (0, 0), (0, 1)), Some((0, 1)));
    assert_eq!(valid_pipe(&tiles, (0, 0), (1, 0)), Some((1, 0)));
    assert_eq!(valid_pipe(&tiles, (0, 0), (0, -1)), None);
    assert_eq!(valid_pipe(&tiles, (0, 0), (-1, 0)), None);
    // the neighbour has no opening back
    assert_eq!(valid_pipe(&tiles, (0, 1), (1, 0)), None);
    let open_end = grid(&["--", ".|"]);
    assert_eq!(valid_pipe(&open_end, (0, 0), (0, 1)), Some((0, 1)));
    assert_eq!(valid_pipe(&open_end, (0, 1), (1, 0)), None);
    assert_eq!(valid_pipe(&open_end, (1, 1), (-1, 0)), None);
}

#[test]
fn valid_pipe_rejects_offsets_that_are_no_unit_step() {
    let tiles = grid(&["---", "---", "---"]);
    assert_eq!(valid_pipe(&tiles, (1, 1), (0, 2)), None);
    assert_eq!(valid_pipe(&tiles, (1, 1), (1, 1)), None);
    assert_eq!(valid_pipe(&tiles, (1, 1), (0, 0)), None);
    assert_eq!(valid_pipe(&tiles, (1, 1), (isize::MAX, isize::MAX)), None);
    assert_eq!(valid_pipe(&tiles, (1, 1), (0, 1)), Some((1, 2)));
    assert_eq!(valid_pipe(&tiles, (1, 1), (0, -1)), Some((1, 0)));
}

#[test]
fn adjacent_pipes_come_in_visiting_order() {
    let cross = grid(&[".|.", "-S-", ".|."]);
    let plus = cross.replaced((1, 1), '-');
    assert_eq!(adjacent_pipes(&plus, (1, 1)), vec![(1, 2), (1, 0)]);
    let bar = cross.replaced((1, 1), '|');
    assert_eq!(adjacent_pipes(&bar, (1, 1)), vec![(2, 1), (0, 1)]);
    let dot = cross.replaced((1, 1), '.');
    assert_eq!(adjacent_pipes(&dot, (1, 1)), Vec::<(isize, isize)>::new());
}

#[test]
fn find_start_takes_the_first_in_reading_order() {
    assert_eq!(find_start(&grid(&["...", ".S.", "S.."])), Some((1, 1)));
    assert_eq!(find_start(&grid(&["...", "...", "..S"])), Some((2, 2)));
    assert_eq!(find_start(&grid(&["...", "..."])), None);
}

#[test]
fn square_loop_distances() {
    let (tiles, start) = prepared(&[".....", ".S-7.", ".|.|.", ".L-J.", "....."], 'F');
    assert_eq!(start, (1, 1));
    let (farthest, steps) = shortest_path(&tiles, start);
    assert_eq!(farthest, 4);
    let expected: [[Option<u64>; 5]; 5] = [
        [None, None, None, None, None],
        [None, Some(0), Some(1), Some(2), None],
        [None, Some(1), None, Some(3), None],
        [None, Some(2), Some(3), Some(4), None],
        [None, None, None, None, None],
    ];
    for r in 0..5 {
        for c in 0..5 {
            assert_eq!(steps.value_at((r as isize, c as isize)), Some(expected[r][c]));
        }
    }
}

#[test]
fn winding_loop_farthest_point() {
    let (tiles, start) = prepared(&["..F7.", ".FJ|.", "SJ.L7", "|F--J", "LJ..."], 'F');
    let (farthest, _) = shortest_path(&tiles, start);
    assert_eq!(farthest, 8);
}

#[test]
fn pipes_off_the_loop_stay_unreached() {
    let (tiles, start) = prepared(&["-L|F7", "7S-7|", "L|7||", "-L-J|", "L|-JF"], 'F');
    let (farthest, steps) = shortest_path(&tiles, start);
    assert_eq!(farthest, 4);
    assert_eq!(steps.value_at((0, 0)), Some(None));
    assert_eq!(steps.value_at((4, 4)), Some(None));
    assert_eq!(steps.value_at((2, 2)), Some(None));
    let map = loop_map(&tiles, &steps);
    let rows: Vec<String> =
        (0..5).map(|r| (0..5).map(|c| map.value_at((r, c)).unwrap()).collect()).collect();
    assert_eq!(rows, vec![".....", ".F-7.", ".|.|.", ".L-J.", "....."]);
}

#[test]
fn start_without_openings_reaches_only_itself() {
    let tiles = grid(&["F7", "LJ"]).replaced((0, 0), '.');
    let (farthest, steps) = shortest_path(&tiles, (0, 0));
    assert_eq!(farthest, 0);
    assert_eq!(steps.value_at((0, 0)), Some(Some(0)));
    assert_eq!(steps.value_at((0, 1)), Some(None));
    assert_eq!(steps.value_at((1, 0)), Some(None));
    assert_eq!(steps.value_at((1, 1)), Some(None));
}

#[test]
fn rectangle_loop_encloses_width_minus_two_times_height_minus_two() {
    let lines = ["S---7", "|...|", "|...|", "|...|", "L---J"];
    assert_eq!(enclosed(&lines, 'F'), (5 - 2) * (5 - 2));
    let wide = ["S-----7", "|.....|", "|.....|", "L-----J"];
    assert_eq!(enclosed(&wide, 'F'), (7 - 2) * (4 - 2));
}

#[test]
fn bend_pair_counts_as_one_crossing() {
    // Row 2 crosses the loop through `L-7`, row 1 through a single `|`.
    let stepped = Surface::new(vec![
        "..F7.".chars().collect(),
        "..|L7".chars().collect(),
        "F-J.|".chars().collect(),
        "|...|".chars().collect(),
        "L---J".chars().collect(),
    ])
    .unwrap();
    assert_eq!(get_inside_count(&stepped), 4);
    let with_run = grid(&[".L-7.", ".L-7."]);
    let with_bar = grid(&[".|...", ".|..."]);
    assert_eq!(get_inside_count(&with_run), 2);
    assert_eq!(get_inside_count(&with_run), get_inside_count(&with_bar) - 4);
    let run_then_cells = grid(&["L--7..|"]);
    let bar_then_cells = grid(&["|.....|"]);
    assert_eq!(get_inside_count(&run_then_cells), 2);
    assert_eq!(get_inside_count(&bar_then_cells), 5);
    let f_run = grid(&["F--J..|"]);
    assert_eq!(get_inside_count(&f_run), 2);
}

#[test]
fn bends_that_turn_back_count_twice() {
    assert_eq!(get_inside_count(&grid(&["L-J.."])), 0);
    assert_eq!(get_inside_count(&grid(&["F-7.."])), 0);
    assert_eq!(get_inside_count(&grid(&["|L-J."])), 1);
    assert_eq!(get_inside_count(&grid(&[".|.|."])), 1);
    assert_eq!(get_inside_count(&grid(&["....."])), 0);
}

#[test]
fn inside_count_of_larger_loops() {
    let squeezed = [
        "..........",
        ".S------7.",
        ".|F----7|.",
        ".||....||.",
        ".||....||.",
        ".|L-7F-J|.",
        ".|..||..|.",
        ".L--JL--J.",
        "..........",
    ];
    assert_eq!(enclosed(&squeezed, 'F'), 4);
    let junk = [
        "FF7FSF7F7F7F7F7F---7",
        "L|LJ||||||||||||F--J",
        "FL-7LJLJ||||||LJL-77",
        "F--JF--7||LJLJ7F7FJ-",
        "L---JF-JLJ.||-FJLJJ7",
        "|F|F-JF---7F7-L7L|7|",
        "|FFJF7L7F-JF7|JL---7",
        "7-L-JL7||F7|L7F-7F7|",
        "L.L7LFJ|||||FJL7||LJ",
        "L7JLJL-JLJLJL--JLJ.L",
    ];
    assert_eq!(enclosed(&junk, '7'), 10);
}

#[test]
fn is_loop_map_rejects_foreign_symbols() {
    assert!(is_loop_map(&grid(&[".-|", "LF7", "J.."])));
    assert!(!is_loop_map(&grid(&[".-|", "LS7"])));
    assert!(!is_loop_map(&grid(&["x"])));
}

#[test]
fn walled_off_goal_is_unreachable() {
    let tiles = grid(&["F-7..", "|.|.|", "L-J.|"]);
    let rule = PipeRule { tiles: &tiles };
    let start = ExtendedState::at((0, 0));
    assert!(rule.admits(&start));
    assert_eq!(search(&rule, start, &Goal::Cell((2, 4))), Err(EngineError::Unreachable));
    assert_eq!(search(&rule, start, &Goal::Cell((1, 1))), Err(EngineError::Unreachable));
    assert_eq!(search(&rule, start, &Goal::Cell((9, 9))), Err(EngineError::Unreachable));
    assert_eq!(search(&rule, start, &Goal::Cell((2, 2))), Ok(4));
    assert_eq!(search(&rule, start, &Goal::Cell((0, 0))), Ok(0));
}

#[test]
fn marked_goal_stops_at_the_nearest_mark() {
    let tiles = grid(&["F---7", "|...|", "L---J"]);
    let rule = PipeRule { tiles: &tiles };
    let start = ExtendedState::at((0, 0));
    let mask = Surface::new(vec![
        vec![false, false, false, true, false],
        vec![false, true, false, false, false],
        vec![false, false, true, false, false],
    ])
    .unwrap();
    assert_eq!(search(&rule, start, &Goal::Marked(mask)), Ok(3));
    let nothing = Surface::new(vec![vec![false; 5]; 3]).unwrap();
    assert_eq!(search(&rule, start, &Goal::Marked(nothing)), Err(EngineError::Unreachable));
    assert_eq!(search(&rule, start, &Goal::FullField), Err(EngineError::Unreachable));
}

#[test]
fn cost_field_twice_gives_the_same_table() {
    let tiles = grid(&["..F7.", ".FJ|.", "FJ.L7", "|F--J", "LJ..."]);
    let rule = PipeRule { tiles: &tiles };
    let start = ExtendedState::at((2, 0));
    let first = cost_field(&rule, start).into_costs();
    let second = cost_field(&rule, start).into_costs();
    assert_eq!(first, second);
    assert_eq!(first.len(), 25);
    assert_eq!(first[rule.key(&start)], Some(0));
    assert_eq!(first.iter().filter(|c| c.is_some()).count(), 16);
}
