use advent2023::compass::Moving;
use advent2023::days::day11::{
    count_between, empty_cols, empty_rows, galaxies, manhatten, manhatten2, total_distance,
};
use advent2023::days::day12::{
    count_arrangements, holds, lacks, num_to_string, solve, Spring,
};
use advent2023::days::day13::{mirror_row, score, transform, Part1, Part2, Score};
use advent2023::days::day14::{spin, Platform};
use advent2023::days::day15::{arrange, focusing_power, hash, Step};
use advent2023::days::day16::{
    check_tiles, most_energized, move_beam, starts_on_edges, Beam,
};
use advent2023::days::day18::{to_vertices, Dig, Dig2};
use advent2023::surface::Surface;
use rusttype::{point, Point};

fn chars(s: &str) -> Vec<char> {
    s.chars().collect()
}

fn grid(rows: &[&str]) -> Surface<char> {
    Surface::new(rows.iter().map(|l| l.chars().collect()).collect()).unwrap()
}

fn rows_of(map: &Surface<char>) -> Vec<String> {
    map.cells().chunks(map.width()).map(|row| row.iter().collect()).collect()
}

const SKY: [&str; 10] = [
    "...#......",
    ".......#..",
    "#.........",
    "..........",
    "......#...",
    ".#........",
    ".........#",
    "..........",
    ".......#..",
    "#...#.....",
];

#[test]
fn manhatten_adds_both_distances() {
    assert_eq!(manhatten(point(1, 6), point(5, 11)), Some(9));
    assert_eq!(manhatten(point(5, 11), point(1, 6)), Some(9));
    assert_eq!(manhatten(point(0, 0), point(0, 0)), Some(0));
    assert_eq!(manhatten(point(-3, 4), point(3, -4)), Some(14));
    assert_eq!(manhatten(point(0, 0), point(isize::MAX, 0)), Some(isize::MAX));
    assert_eq!(manhatten(point(0, 0), point(isize::MAX, 1)), None);
    assert_eq!(manhatten(point(1, 0), point(isize::MIN, 0)), None);
    assert_eq!(manhatten(point(0, 0), point(isize::MIN, 0)), None);
    assert_eq!(manhatten(point(0, 0), point(isize::MIN + 1, 0)), Some(isize::MAX));
    assert_eq!(manhatten(point(-1, 0), point(isize::MAX, 0)), None);
}

#[test]
fn manhatten2_stretches_empty_lines() {
    let rows = vec![3, 7];
    let cols = vec![2, 5, 8];
    // Galaxy 5 at (1, 5) and galaxy 9 at (4, 9) of the sample sky.
    assert_eq!(manhatten2(point(1, 5), point(4, 9), &rows, &cols, 1), Some(9));
    assert_eq!(manhatten2(point(4, 9), point(1, 5), &rows, &cols, 1), Some(9));
    assert_eq!(manhatten2(point(3, 0), point(7, 8), &rows, &cols, 1), Some(15));
    assert_eq!(manhatten2(point(0, 2), point(9, 6), &rows, &cols, 1), Some(17));
    assert_eq!(manhatten2(point(0, 9), point(4, 9), &rows, &cols, 1), Some(5));
    assert_eq!(manhatten2(point(0, 9), point(4, 9), &rows, &cols, 0), Some(4));
    assert_eq!(manhatten2(point(0, 9), point(4, 9), &rows, &cols, 9), Some(13));
    assert_eq!(manhatten2(point(0, 0), point(9, 9), &rows, &cols, 100), Some(18 + 500));
    assert_eq!(manhatten2(point(0, 0), point(9, 9), &rows, &cols, -1), Some(13));
    // The lower end of a range counts, the upper end does not.
    assert_eq!(manhatten2(point(2, 0), point(5, 0), &rows, &cols, 10), Some(3 + 10));
    assert_eq!(manhatten2(point(3, 0), point(5, 0), &rows, &cols, 10), Some(2));
    assert_eq!(manhatten2(point(0, 3), point(0, 7), &rows, &cols, 10), Some(4 + 10));
    assert_eq!(manhatten2(point(0, 0), point(9, 9), &rows, &cols, isize::MAX), None);
    assert_eq!(manhatten2(point(0, 0), point(isize::MAX, 1), &rows, &cols, 1), None);
    assert_eq!(count_between(&cols, 2, 8), 2);
    assert_eq!(count_between(&cols, 3, 5), 0);
    assert_eq!(count_between(&cols, 8, 2), 0);
    assert_eq!(count_between(&vec![], 0, 9), 0);
}

#[test]
fn the_sky_is_measured() {
    let image = grid(&SKY);
    assert_eq!(empty_rows(&image), vec![3, 7]);
    assert_eq!(empty_cols(&image), vec![2, 5, 8]);
    let found = galaxies(&image);
    let expected: Vec<Point<isize>> = vec![
        point(3, 0),
        point(7, 1),
        point(0, 2),
        point(6, 4),
        point(1, 5),
        point(9, 6),
        point(7, 8),
        point(0, 9),
        point(4, 9),
    ];
    assert_eq!(found, expected);
    let rows = empty_rows(&image);
    let cols = empty_cols(&image);
    assert_eq!(total_distance(&found, &rows, &cols, 1), Some(374));
    assert_eq!(total_distance(&found, &rows, &cols, 9), Some(1030));
    assert_eq!(total_distance(&found, &rows, &cols, 99), Some(8410));
    assert_eq!(total_distance(&found, &rows, &cols, 0), Some(292));
    assert_eq!(total_distance(&vec![], &rows, &cols, 1), Some(0));
    assert_eq!(total_distance(&vec![point(1, 1)], &rows, &cols, 1), Some(0));
    assert_eq!(total_distance(&found, &rows, &cols, isize::MAX), None);
    let empty = grid(&["..", ".."]);
    assert_eq!(empty_rows(&empty), vec![0, 1]);
    assert_eq!(empty_cols(&empty), vec![0, 1]);
    assert_eq!(galaxies(&empty), vec![]);
}

#[test]
fn spring_conditions_are_checked() {
    let spring = Spring::new("???.###".to_string(), vec![1, 1, 3]);
    assert_eq!(spring.condition, "???.###");
    assert_eq!(spring.counts, vec![1, 1, 3]);
    assert!(spring.is_valid("#.#.###".to_string()));
    assert!(spring.is_valid("..#...#....###.".to_string()));
    assert!(!spring.is_valid("##..###".to_string()));
    assert!(!spring.is_valid("#.#.##.".to_string()));
    assert!(!spring.is_valid("#.#.###.#".to_string()));
    assert!(!spring.is_valid("#.?.###".to_string()));
    assert!(!spring.is_valid("".to_string()));
    assert!(Spring::new("".to_string(), vec![]).is_valid("....".to_string()));
    assert!(Spring::new("".to_string(), vec![]).is_valid("".to_string()));
    assert!(!spring.is_invalid());
    assert!(Spring::new("??..###".to_string(), vec![1, 1, 3]).is_invalid() == false);
    assert!(Spring::new("?...###".to_string(), vec![1, 1, 3]).is_invalid());
    assert!(Spring::new("".to_string(), vec![1]).is_invalid());
    assert!(!Spring::new("".to_string(), vec![]).is_invalid());
    assert!(!Spring::new("#".to_string(), vec![usize::MAX, 0]).is_invalid() == false);
    assert!(Spring::new("#".to_string(), vec![usize::MAX, usize::MAX]).is_invalid());
    assert!(holds(&chars("#.#"), &vec![1, 1]));
    assert!(!lacks(&chars("#.#"), &vec![1, 1]));
    assert!(lacks(&chars("#.."), &vec![1, 1]));
}

#[test]
fn springs_are_filled_in() {
    let spring = Spring::new("?#?.?".to_string(), vec![2, 1]);
    assert_eq!(spring.populate("#.#".to_string()), Some("##..#".to_string()));
    assert_eq!(spring.populate("..#xyz".to_string()), Some(".#..#".to_string()));
    assert_eq!(spring.populate("#.".to_string()), None);
    assert_eq!(spring.populate("".to_string()), None);
    assert_eq!(
        Spring::new("#.#".to_string(), vec![]).populate("".to_string()),
        Some("#.#".to_string())
    );
    assert_eq!(num_to_string(5, 3), "#.#");
    assert_eq!(num_to_string(5, 4), ".#.#");
    assert_eq!(num_to_string(5, 2), ".#");
    assert_eq!(num_to_string(0, 0), "");
    assert_eq!(num_to_string(1, 1), "#");
    assert_eq!(num_to_string(u32::MAX, 32), "#".repeat(32));
    assert_eq!(num_to_string(1 << 31, 32), format!("#{}", ".".repeat(31)));
    assert_eq!(num_to_string(6, 32), format!("{}##.", ".".repeat(29)));
}

#[test]
fn arrangements_are_counted() {
    let input = [
        ("???.### 1,1,3", 1),
        (".??..??...?##. 1,1,3", 4),
        ("?#?#?#?#?#?#?#? 1,3,1,6", 1),
        ("????.#...#... 4,1,1", 1),
        ("????.######..#####. 1,6,5", 4),
        ("?###???????? 3,2,1", 10),
    ];
    let mut total = 0;
    for (line, expected) in input {
        let spring = Spring::parse(line).unwrap();
        let unknown = spring.condition.chars().filter(|c| *c == '?').count() as u32;
        let mut by_trial = 0;
        for j in 0..(1u32 << unknown) {
            let filled = spring.populate(num_to_string(j, unknown)).unwrap();
            if spring.is_valid(filled) {
                by_trial += 1;
            }
        }
        assert_eq!(by_trial, expected, "{}", line);
        assert_eq!(solve(spring), Some(expected), "{}", line);
        total += expected;
    }
    assert_eq!(total, 21);
    assert_eq!(count_arrangements(chars(""), &vec![]), Some(1));
    assert_eq!(count_arrangements(chars(""), &vec![1]), Some(0));
    assert_eq!(count_arrangements(chars("?"), &vec![]), Some(1));
    assert_eq!(count_arrangements(chars("?"), &vec![1]), Some(1));
    assert_eq!(count_arrangements(chars("??"), &vec![1]), Some(2));
    assert_eq!(count_arrangements(chars("???"), &vec![1, 1]), Some(1));
    assert_eq!(count_arrangements(chars("#"), &vec![2]), Some(0));
    assert_eq!(count_arrangements(chars("??????????"), &vec![1, 1]), Some(36));
    let spring = Spring::parse("???.### 1,1,3").unwrap();
    assert_eq!(spring, Spring::new("???.###".to_string(), vec![1, 1, 3]));
    assert_eq!(Spring::parse("???.###"), None);
    assert_eq!(Spring::parse("???.### 1,,3"), None);
    assert_eq!(Spring::parse("xx ???.### 1,x"), None);
}

#[test]
fn patterns_fold_along_a_line() {
    let first = grid(&[
        "#.##..##.",
        "..#.##.#.",
        "##......#",
        "##......#",
        "..#.##.#.",
        "..##..##.",
        "#.#.##.#.",
    ]);
    let second = grid(&[
        "#...##..#",
        "#....#..#",
        "..##..###",
        "#####.##.",
        "#####.##.",
        "..##..###",
        "#....#..#",
    ]);
    assert_eq!(mirror_row(&Part1 {}, &first), None);
    assert_eq!(mirror_row(&Part1 {}, &transform(&first)), Some(4));
    assert_eq!(score(&Part1 {}, &first), Some(5));
    assert_eq!(mirror_row(&Part1 {}, &second), Some(3));
    assert_eq!(score(&Part1 {}, &second), Some(400));
    assert_eq!(mirror_row(&Part2 {}, &first), Some(2));
    assert_eq!(score(&Part2 {}, &first), Some(300));
    assert_eq!(mirror_row(&Part2 {}, &second), Some(0));
    assert_eq!(score(&Part2 {}, &second), Some(100));
    assert!(Part1 {}.valid_fold_row(&second, 3));
    assert!(!Part1 {}.valid_fold_row(&second, 2));
    assert!(!Part1 {}.valid_fold_row(&second, 6));
    assert!(!Part2 {}.valid_fold_row(&second, 3));
    assert!(Part2 {}.valid_fold_row(&second, 0));
    let plain = grid(&["ab", "cd", "ef"]);
    assert_eq!(score(&Part1 {}, &plain), None);
    assert_eq!(score(&Part2 {}, &plain), None);
    assert_eq!(rows_of(&transform(&plain)), vec!["ace", "bdf"]);
    let twins = grid(&["ab", "ab"]);
    assert_eq!(score(&Part1 {}, &twins), Some(100));
    assert_eq!(score(&Part2 {}, &twins), None);
    let near = grid(&["ab", "ac"]);
    assert_eq!(score(&Part1 {}, &near), None);
    assert_eq!(score(&Part2 {}, &near), Some(100));
    let far = grid(&["ab", "cd"]);
    assert_eq!(score(&Part2 {}, &far), None);
    let columns = grid(&["aab", "ccd"]);
    assert_eq!(score(&Part1 {}, &columns), Some(1));
    let single = grid(&["a"]);
    assert_eq!(score(&Part1 {}, &single), None);
}

const ROCKS: [&str; 10] = [
    "O....#....",
    "O.OO#....#",
    ".....##...",
    "OO.#O....O",
    ".O.....O#.",
    "O.#..O.#.#",
    "..O..#O..O",
    ".......O..",
    "#....###..",
    "#OO..#....",
];

#[test]
fn rocks_roll_north() {
    let mut platform = Platform { map: grid(&ROCKS) };
    assert_eq!(platform.score(), Some(104));
    platform.tilt();
    assert_eq!(
        rows_of(&platform.map),
        vec![
            "OOOO.#.O..",
            "OO..#....#",
            "OO..O##..O",
            "O..#.OO...",
            "........#.",
            "..#....#.#",
            "..O..#.O.O",
            "..O.......",
            "#....###..",
            "#....#....",
        ]
    );
    assert_eq!(platform.score(), Some(136));
    platform.tilt();
    assert_eq!(platform.score(), Some(136));
    let mut odd = Platform { map: grid(&["x.", "O#", ".O", "OO", "#.", "O."]) };
    odd.tilt();
    assert_eq!(rows_of(&odd.map), vec!["O.", "O#", ".O", ".O", "#.", "O."]);
    let mut small = Platform { map: grid(&["ab", "cd", "ef"]) };
    small.rotate();
    assert_eq!(rows_of(&small.map), vec!["eca", "fdb"]);
    small.rotate();
    assert_eq!(rows_of(&small.map), vec!["fe", "dc", "ba"]);
    small.rotate();
    small.rotate();
    assert_eq!(rows_of(&small.map), vec!["ab", "cd", "ef"]);
    assert_eq!(Platform { map: grid(&["O", "O"]) }.score(), Some(3));
    assert_eq!(Platform { map: grid(&["#."]) }.score(), Some(0));
}

#[test]
fn rocks_spin_in_cycles() {
    let mut platform = Platform { map: grid(&ROCKS) };
    platform.cycle();
    assert_eq!(
        rows_of(&platform.map),
        vec![
            ".....#....",
            "....#...O#",
            "...OO##...",
            ".OO#......",
            ".....OOO#.",
            ".O#...O#.#",
            "....O#....",
            "......OOOO",
            "#...O###..",
            "#..OO#....",
        ]
    );
    platform.cycle();
    platform.cycle();
    assert_eq!(
        rows_of(&platform.map),
        vec![
            ".....#....",
            "....#...O#",
            ".....##...",
            "..O#......",
            ".....OOO#.",
            ".O#...O#.#",
            "....O#...O",
            ".......OOO",
            "#...O###.O",
            "#.OOO#...O",
        ]
    );
    let mut platform = Platform { map: grid(&ROCKS) };
    assert_eq!(spin(&mut platform, 1000), Some(64));
    let mut platform = Platform { map: grid(&ROCKS) };
    assert_eq!(spin(&mut platform, 50), None);
    let mut platform = Platform { map: grid(&ROCKS) };
    assert_eq!(spin(&mut platform, 0), None);
    // The one rock ends every cycle in the south-west corner.
    let mut still = Platform { map: grid(&["O.", ".#"]) };
    assert_eq!(spin(&mut still, 1000), Some(1));
    assert_eq!(rows_of(&still.map), vec!["..", "O#"]);
}

#[test]
fn labels_are_hashed() {
    assert_eq!(hash("HASH"), Some(52));
    assert_eq!(hash(""), Some(0));
    assert_eq!(hash("rn=1"), Some(30));
    assert_eq!(hash("cm-"), Some(253));
    assert_eq!(hash("rn"), Some(0));
    assert_eq!(hash("qp"), Some(1));
    assert_eq!(hash("cm"), Some(0));
    assert_eq!(hash("pc"), Some(3));
    assert_eq!(hash("ot"), Some(3));
    assert_eq!(hash("\u{7f}"), Some((127 * 17) % 256));
    assert_eq!(hash("é"), None);
    assert_eq!(hash("rn\u{80}"), None);
    let sum: usize = "rn=1,cm-,qp=3,cm=2,qp-,pc=4,ot=9,ab=5,pc-,pc=6,ot=7"
        .split(',')
        .map(|s| hash(s).unwrap())
        .sum();
    assert_eq!(sum, 1320);
}

#[test]
fn lenses_are_arranged() {
    assert_eq!(Step::parse("rn=1"), Some(Step { name: "rn".to_string(), length: Some(1) }));
    assert_eq!(Step::parse("cm-"), Some(Step { name: "cm".to_string(), length: None }));
    assert_eq!(Step::parse("cm-7"), Some(Step { name: "cm".to_string(), length: None }));
    assert_eq!(Step::parse("cm="), None);
    assert_eq!(Step::parse("=1"), None);
    assert_eq!(Step::parse("cm"), None);
    let steps: Vec<Step> = "rn=1,cm-,qp=3,cm=2,qp-,pc=4,ot=9,ab=5,pc-,pc=6,ot=7"
        .split(',')
        .map(|s| Step::parse(s).unwrap())
        .collect();
    let boxes = arrange(&steps).unwrap();
    assert_eq!(boxes.len(), 256);
    assert_eq!(boxes[0], vec![(chars("rn"), 1), (chars("cm"), 2)]);
    assert_eq!(boxes[3], vec![(chars("ot"), 7), (chars("ab"), 5), (chars("pc"), 6)]);
    assert!(boxes.iter().enumerate().all(|(i, b)| i == 0 || i == 3 || b.is_empty()));
    assert_eq!(focusing_power(&boxes), Some(145));
    let early = arrange(&steps[..6].to_vec()).unwrap();
    assert_eq!(early[0], vec![(chars("rn"), 1), (chars("cm"), 2)]);
    assert_eq!(early[1], vec![]);
    assert_eq!(early[3], vec![(chars("pc"), 4)]);
    assert_eq!(arrange(&vec![]).map(|b| focusing_power(&b)), Some(Some(0)));
    let odd = vec![Step { name: "é".to_string(), length: Some(1) }];
    assert_eq!(arrange(&odd), None);
    let heavy = vec![Step { name: "rn".to_string(), length: Some(usize::MAX) }];
    assert_eq!(focusing_power(&arrange(&heavy).unwrap()), Some(usize::MAX));
    let heavier = vec![
        Step { name: "rn".to_string(), length: Some(usize::MAX) },
        Step { name: "cm".to_string(), length: Some(1) },
    ];
    assert_eq!(focusing_power(&arrange(&heavier).unwrap()), None);
    let replaced = vec![
        Step { name: "a".to_string(), length: Some(1) },
        Step { name: "q".to_string(), length: Some(2) },
        Step { name: "a".to_string(), length: Some(3) },
    ];
    let boxes = arrange(&replaced).unwrap();
    let h = hash("a").unwrap();
    assert_eq!(boxes[h], vec![(chars("a"), 3)]);
}

const MIRRORS: [&str; 10] = [
    ".|...\\....",
    "|.-.\\.....",
    ".....|-...",
    "........|.",
    "..........",
    ".........\\",
    "..../.\\\\..",
    ".-.-/..|..",
    ".|....-|.\\",
    "..//.|....",
];

#[test]
fn beams_turn_and_split() {
    let beam = Beam::new((3, 4), Moving::Right);
    assert_eq!(beam, Beam { position: (3, 4), moving: Moving::Right });
    let at = |m| Beam::new((3, 4), m);
    let right = Beam::new((3, 5), Moving::Right);
    let left = Beam::new((3, 3), Moving::Left);
    let up = Beam::new((2, 4), Moving::Up);
    let down = Beam::new((4, 4), Moving::Down);
    assert_eq!(at(Moving::Right).step('.'), vec![right]);
    assert_eq!(at(Moving::Left).step('.'), vec![left]);
    assert_eq!(at(Moving::Up).step('.'), vec![up]);
    assert_eq!(at(Moving::Down).step('.'), vec![down]);
    assert_eq!(at(Moving::Right).step('/'), vec![up]);
    assert_eq!(at(Moving::Left).step('/'), vec![down]);
    assert_eq!(at(Moving::Up).step('/'), vec![right]);
    assert_eq!(at(Moving::Down).step('/'), vec![left]);
    assert_eq!(at(Moving::Right).step('\\'), vec![down]);
    assert_eq!(at(Moving::Left).step('\\'), vec![up]);
    assert_eq!(at(Moving::Up).step('\\'), vec![left]);
    assert_eq!(at(Moving::Down).step('\\'), vec![right]);
    assert_eq!(at(Moving::Right).step('-'), vec![right]);
    assert_eq!(at(Moving::Left).step('-'), vec![left]);
    assert_eq!(at(Moving::Up).step('-'), vec![left, right]);
    assert_eq!(at(Moving::Down).step('-'), vec![left, right]);
    assert_eq!(at(Moving::Right).step('|'), vec![up, down]);
    assert_eq!(at(Moving::Left).step('|'), vec![up, down]);
    assert_eq!(at(Moving::Up).step('|'), vec![up]);
    assert_eq!(at(Moving::Down).step('|'), vec![down]);
}

#[test]
fn beams_light_up_the_contraption() {
    let contraption = grid(&MIRRORS);
    assert!(check_tiles(&contraption));
    assert!(!check_tiles(&grid(&["..", ".x"])));
    assert_eq!(move_beam(Beam::new((0, 0), Moving::Right), &contraption), 46);
    assert_eq!(move_beam(Beam::new((0, 3), Moving::Down), &contraption), 51);
    assert_eq!(move_beam(Beam::new((-1, 0), Moving::Right), &contraption), 0);
    assert_eq!(move_beam(Beam::new((0, 10), Moving::Left), &contraption), 0);
    assert_eq!(move_beam(Beam::new((0, 0), Moving::Up), &contraption), 1);
    let starts = starts_on_edges(&contraption);
    assert_eq!(starts.len(), 40);
    assert_eq!(starts[0], Beam::new((0, 0), Moving::Right));
    assert_eq!(starts[9], Beam::new((9, 0), Moving::Right));
    assert_eq!(starts[10], Beam::new((0, 9), Moving::Left));
    assert_eq!(starts[20], Beam::new((0, 0), Moving::Down));
    assert_eq!(starts[30], Beam::new((9, 0), Moving::Up));
    assert_eq!(starts[39], Beam::new((9, 9), Moving::Up));
    assert_eq!(most_energized(&contraption, &starts), Some(51));
    assert_eq!(most_energized(&contraption, &vec![]), None);
    let ring = grid(&["/-\\", "|.|", "\\-/"]);
    assert_eq!(move_beam(Beam::new((0, 1), Moving::Right), &ring), 8);
    assert_eq!(move_beam(Beam::new((1, 1), Moving::Right), &ring), 9);
    assert_eq!(move_beam(Beam::new((1, 1), Moving::Up), &ring), 9);
    let open = grid(&["...", "..."]);
    assert_eq!(move_beam(Beam::new((1, 0), Moving::Right), &open), 3);
    assert_eq!(most_energized(&open, &starts_on_edges(&open)), Some(3));
}

#[test]
fn dig_plans_are_read() {
    assert_eq!(Dig::parse("R 6 (#70c710)"), Some(Dig { dir: 'R', distance: 6 }));
    assert_eq!(Dig::parse("U 12 (#caa173)"), Some(Dig { dir: 'U', distance: 12 }));
    assert_eq!(Dig::parse("X 6 (#70c710)"), None);
    assert_eq!(Dig::parse("R 6 (#70c71)"), None);
    assert_eq!(Dig::parse("R 6"), None);
    assert_eq!(Dig::parse("R 99999999999999999999 (#70c710)"), None);
    assert_eq!(Dig2::parse("R 6 (#70c710)"), Some(Dig2 { dir: 'R', distance: 461937 }));
    assert_eq!(Dig2::parse("D 5 (#0dc571)"), Some(Dig2 { dir: 'D', distance: 56407 }));
    assert_eq!(Dig2::parse("L 2 (#8ceee2)"), Some(Dig2 { dir: 'L', distance: 577262 }));
    assert_eq!(Dig2::parse("U 2 (#caa173)"), Some(Dig2 { dir: 'U', distance: 829975 }));
    assert_eq!(Dig2::parse("U 2 (#caa174)"), None);
    assert_eq!(Dig2::parse("U 2 (#CAA173)"), None);
    let plan = [
        "R 6 (#70c710)", "D 5 (#0dc571)", "L 2 (#5713f0)", "D 2 (#d2c081)", "R 2 (#59c680)",
        "D 2 (#411b91)", "L 5 (#8ceee2)", "U 2 (#caa173)", "L 1 (#1b58a2)", "U 2 (#caa171)",
        "R 2 (#7807d2)", "U 3 (#a77fa3)", "L 2 (#015232)", "U 2 (#7a21e3)",
    ];
    let moves: Vec<(char, isize)> =
        plan.iter().map(|l| Dig::parse(l).unwrap()).map(|d| (d.dir, d.distance)).collect();
    let corners = to_vertices(&moves).unwrap();
    assert_eq!(corners.len(), 15);
    assert_eq!(corners[1], (0, 6));
    assert_eq!(corners[2], (5, 6));
    assert_eq!(corners[7], (9, 1));
    assert_eq!(corners[14], (0, 0));
    let moves2: Vec<(char, isize)> =
        plan.iter().map(|l| Dig2::parse(l).unwrap()).map(|d| (d.dir, d.distance)).collect();
    let corners2 = to_vertices(&moves2).unwrap();
    assert_eq!(corners2[1], (0, 461937));
    assert_eq!(corners2[2], (56407, 461937));
    assert_eq!(corners2[14], (0, 0));
}
