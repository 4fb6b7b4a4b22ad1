use advent2023::climb::steps_field;
use advent2023::days::day12::{count_unknown, unfolded_guess, Spring};
use advent2023::days::day15::sum_of_hashes;
use advent2023::days::day17::{cheapest_run, heat_field, heat_map, shortest_path};
use advent2023::days::day2::{sum_of_possible, sum_of_powers, Game};
use advent2023::days::day4::count_copies;
use advent2023::days::day9::parse_history;
use advent2023::surface::{EngineError, Surface};

#[test]
fn games_are_summed() {
    let input = [
        "Game 1: 3 blue, 4 red; 1 red, 2 green, 6 blue; 2 green",
        "Game 2: 1 blue, 2 green; 3 green, 4 blue, 1 red; 1 green, 1 blue",
        "Game 3: 8 green, 6 blue, 20 red; 5 blue, 4 red, 13 green; 5 green, 1 red",
        "Game 4: 1 green, 3 red, 6 blue; 3 green, 6 red; 3 green, 15 blue, 14 red",
        "Game 5: 6 red, 1 blue, 3 green; 2 blue, 1 red, 2 green",
    ];
    let games: Vec<Game> = input.iter().map(|l| Game::parse(l).unwrap()).collect();
    assert_eq!(sum_of_possible(&games, 12, 13, 14), Some(8));
    assert_eq!(sum_of_possible(&games, 20, 13, 15), Some(15));
    assert_eq!(sum_of_possible(&games, 0, 0, 0), Some(0));
    assert_eq!(sum_of_powers(&games), Some(2286));
    assert_eq!(sum_of_possible(&vec![], 1, 1, 1), Some(0));
    assert_eq!(sum_of_powers(&vec![]), Some(0));
    let mut more = games;
    more.push(Game::parse("Game 6: 1 red, 1 blue").unwrap());
    assert_eq!(sum_of_possible(&more, 12, 13, 14), None);
    assert_eq!(sum_of_powers(&more), None);
    let big = vec![
        Game::parse("Game 4294967295: 1 red, 1 green, 1 blue").unwrap(),
        Game::parse("Game 1: 1 red, 1 green, 65536 blue; 65536 red").unwrap(),
    ];
    assert_eq!(sum_of_possible(&big, 1, 1, 1), Some(4294967295));
    assert_eq!(sum_of_possible(&big, 65536, 1, 65536), None);
    assert_eq!(sum_of_powers(&big), None);
    assert_eq!(sum_of_powers(&big[..1].iter().map(|g| g.clone()).collect()), Some(1));
}

#[test]
fn copies_are_counted_card_by_card() {
    assert_eq!(count_copies(&vec![4, 2, 2, 1, 0, 0]), Some(30));
    assert_eq!(count_copies(&vec![]), Some(0));
    assert_eq!(count_copies(&vec![0]), Some(1));
    assert_eq!(count_copies(&vec![0, 0, 0]), Some(3));
    assert_eq!(count_copies(&vec![1, 0]), Some(3));
    assert_eq!(count_copies(&vec![2, 1, 0]), Some(1 + 2 + 4));
    let doubling: Vec<usize> = (0..32).map(|i| 31 - i).collect();
    assert_eq!(count_copies(&doubling), Some(u32::MAX));
    let too_many: Vec<usize> = (0..33).map(|i| 32 - i).collect();
    assert_eq!(count_copies(&too_many), None);
}

#[test]
fn histories_are_read() {
    assert_eq!(parse_history("0 3 6 9 12 15"), Some(vec![0, 3, 6, 9, 12, 15]));
    assert_eq!(parse_history("  -5   +7 0 "), Some(vec![-5, 7, 0]));
    assert_eq!(parse_history(""), Some(vec![]));
    assert_eq!(parse_history("1 two 3"), None);
    assert_eq!(parse_history("2147483647 -2147483648"), Some(vec![i32::MAX, i32::MIN]));
    assert_eq!(parse_history("2147483648"), None);
    assert_eq!(parse_history("1,2"), None);
}

#[test]
fn springs_are_counted_by_trial() {
    let input = [
        ("???.### 1,1,3", 1),
        (".??..??...?##. 1,1,3", 4),
        ("?#?#?#?#?#?#?#? 1,3,1,6", 1),
        ("????.#...#... 4,1,1", 1),
        ("????.######..#####. 1,6,5", 4),
        ("?###???????? 3,2,1", 10),
        ("#.# 1,1", 1),
        ("#.# 2", 0),
    ];
    for (line, expected) in input {
        assert_eq!(Spring::parse(line).unwrap().count_by_trial(), expected, "{}", line);
    }
    assert_eq!(count_unknown(&"?#?.?".chars().collect()), 3);
    assert_eq!(count_unknown(&"".chars().collect()), 0);
    // 3 * (48 / 3)^4 + 2 * (7 / 2)^4
    assert_eq!(unfolded_guess(&vec![3, 2], &vec![48, 7]), Some(3 * 65536 + 2 * 81));
    assert_eq!(unfolded_guess(&vec![1, 4, 1], &vec![1, 32, 3]), Some(1 + 4 * 4096 + 81));
    assert_eq!(unfolded_guess(&vec![5], &vec![4]), Some(0));
    assert_eq!(unfolded_guess(&vec![], &vec![]), Some(0));
    assert_eq!(unfolded_guess(&vec![3, 2], &vec![48]), Some(3 * 65536));
    assert_eq!(unfolded_guess(&vec![3, 0], &vec![48, 7]), None);
    assert_eq!(unfolded_guess(&vec![1], &vec![65536]), None);
    assert_eq!(unfolded_guess(&vec![1], &vec![65535]), Some(65535usize.pow(4)));
    assert_eq!(unfolded_guess(&vec![2], &vec![2 * 65535]), None);
}

#[test]
fn hashes_are_summed() {
    let steps: Vec<String> = "rn=1,cm-,qp=3,cm=2,qp-,pc=4,ot=9,ab=5,pc-,pc=6,ot=7"
        .split(',')
        .map(|s| s.to_string())
        .collect();
    assert_eq!(sum_of_hashes(&steps), Some(1320));
    assert_eq!(sum_of_hashes(&vec![]), Some(0));
    assert_eq!(sum_of_hashes(&vec!["HASH".to_string(), "".to_string()]), Some(52));
    assert_eq!(sum_of_hashes(&vec!["HASH".to_string(), "é".to_string()]), None);
}

#[test]
fn heat_maps_are_read() {
    let lines = |rows: &[&str]| -> Vec<Vec<char>> {
        rows.iter().map(|l| l.chars().collect()).collect()
    };
    let map = heat_map(&lines(&["123", "904"])).unwrap();
    assert_eq!(map.cells(), &vec![1, 2, 3, 9, 0, 4]);
    assert_eq!(map.height(), 2);
    // Right over the 2, down over the 0, right over the 4.
    assert_eq!(shortest_path(&map, (1, 2)), Ok(6));
    assert_eq!(heat_map(&lines(&["123", "90"])).err(), Some(EngineError::MalformedGrid));
    assert_eq!(heat_map(&lines(&[])).err(), Some(EngineError::MalformedGrid));
    assert_eq!(heat_map(&lines(&[""])).err(), Some(EngineError::MalformedGrid));
    assert_eq!(heat_map(&lines(&["12a"])).err(), Some(EngineError::InvalidParameters));
    assert_eq!(heat_map(&lines(&["123", "9x"])).err(), Some(EngineError::InvalidParameters));
    assert_eq!(heat_map(&lines(&["１"])).err(), Some(EngineError::InvalidParameters));
}

#[test]
fn climbs_fill_a_field() {
    let heights = Surface::new(vec![vec![0, 1, 2], vec![9, 9, 3], vec![6, 5, 4]]).unwrap();
    let field = steps_field(&heights, (0, 0));
    assert_eq!(
        field.cells(),
        &vec![Some(0), Some(1), Some(2), None, None, Some(3), Some(6), Some(5), Some(4)]
    );
    // The way back leads down all the time; the two high cells stay out.
    let back = steps_field(&heights, (2, 0));
    assert_eq!(
        back.cells(),
        &vec![Some(6), Some(5), Some(4), None, None, Some(3), Some(0), Some(1), Some(2)]
    );
    let down = steps_field(&heights, (1, 1));
    assert_eq!(down.value_at((0, 0)), Some(Some(2)));
    assert_eq!(down.value_at((2, 2)), Some(Some(2)));
    assert_eq!(down.value_at((2, 0)), Some(Some(2)));
    assert_eq!(heights.neighbors((1, 1)), vec![(1, 2), (1, 0), (2, 1), (0, 1)]);
}

#[test]
fn heat_fields_hold_the_least_loss_of_every_block() {
    let lines: Vec<Vec<char>> =
        ["2413", "3215", "3255", "3446"].iter().map(|l| l.chars().collect()).collect();
    let map = heat_map(&lines).unwrap();
    for (min_run, max_run) in [(0u32, 3u32), (1, 1), (2, 3), (4, 10), (0, 0)] {
        let field = heat_field(&map, min_run, max_run).unwrap();
        assert_eq!(field.height(), 4);
        assert_eq!(field.width(), 4);
        for r in 0..4isize {
            for c in 0..4isize {
                assert_eq!(
                    field.value_at((r, c)).unwrap(),
                    cheapest_run(&map, (r, c), min_run, max_run).ok(),
                    "{:?}",
                    (r, c, min_run, max_run)
                );
            }
        }
    }
    let field = heat_field(&map, 0, 3).unwrap();
    assert_eq!(field.value_at((0, 0)), Some(Some(0)));
    assert_eq!(field.value_at((0, 1)), Some(Some(4)));
    assert_eq!(field.value_at((1, 0)), Some(Some(3)));
    assert_eq!(field.value_at((1, 1)), Some(Some(5)));
    let stuck = heat_field(&map, 0, 0).unwrap();
    assert_eq!(stuck.value_at((0, 0)), Some(Some(0)));
    assert_eq!(stuck.value_at((0, 1)), Some(None));
    assert_eq!(heat_field(&map, 2, 1).err(), Some(EngineError::InvalidParameters));
    assert_eq!(heat_field(&map, 0, u32::MAX).err(), Some(EngineError::InvalidParameters));
}

#[test]
fn springs_unfold() {
    let spring = Spring::parse(".# 1").unwrap();
    let five = spring.unfold(5);
    assert_eq!(five.condition, ".#?.#?.#?.#?.#");
    assert_eq!(five.counts, vec![1, 1, 1, 1, 1]);
    let one = spring.unfold(1);
    assert_eq!(one.condition, ".#");
    assert_eq!(one.counts, vec![1]);
    let none = spring.unfold(0);
    assert_eq!(none.condition, "");
    assert_eq!(none.counts, Vec::<usize>::new());
    let two = Spring::parse("???.### 1,1,3").unwrap().unfold(2);
    assert_eq!(two.condition, "???.###????.###");
    assert_eq!(two.counts, vec![1, 1, 3, 1, 1, 3]);
    assert_eq!(advent2023::days::day12::solve(two), Some(1));
    let grown = Spring::parse(".??..??...?##. 1,1,3").unwrap();
    assert_eq!(advent2023::days::day12::solve(grown.unfold(2)), Some(32));
}
