use advent2023::days::day1;
use advent2023::days::day2::{Cubes, Game};
use advent2023::days::day3::{digit, gear_ratios, part_numbers, sum_of_parts, symbol, PartNumber};
use advent2023::days::day4::{part2_instances, Card};
use advent2023::days::day5::{
    location, lowest_in_ranges, lowest_location, parse_range, parse_seeds, seed_ranges, SeedMap,
};
use advent2023::days::day6::{margin, parse_joined, parse_numbers, ways_to_win};
use advent2023::days::day7::{
    card_counts, hand_strength, parse_hand_bid, rank_of, total_winnings, value_of, Hand, Hand2,
};
use advent2023::days::day8::{
    check_route, find_node, get_count, lcm_checked, nodes_ending_with, Node,
};
use advent2023::days::day8;
use advent2023::days::day9;
use advent2023::surface::Surface;

fn chars(s: &str) -> Vec<char> {
    s.chars().collect()
}

fn lines(text: &str) -> Vec<String> {
    text.lines().map(|l| l.to_string()).collect()
}

fn grid(rows: &[&str]) -> Surface<char> {
    Surface::new(rows.iter().map(|l| l.chars().collect()).collect()).unwrap()
}

#[test]
fn calibration_takes_first_and_last_digit() {
    assert_eq!(day1::calibration("1abc2"), Some(12));
    assert_eq!(day1::calibration("pqr3stu8vwx"), Some(38));
    assert_eq!(day1::calibration("a1b2c3d4e5f"), Some(15));
    assert_eq!(day1::calibration("treb7uchet"), Some(77));
    assert_eq!(day1::calibration("trebuchet"), None);
    assert_eq!(day1::calibration(""), None);
    assert_eq!(day1::calibration("0"), Some(0));
    assert_eq!(day1::calibration("x9"), Some(99));
    assert_eq!(day1::to_digit('7'), Some(7));
    assert_eq!(day1::to_digit('a'), None);
    let input = lines("1abc2\npqr3stu8vwx\na1b2c3d4e5f\ntreb7uchet\nnothing");
    assert_eq!(day1::part1(&input), Some(142));
    assert_eq!(day1::part1(&vec![]), Some(0));
}

#[test]
fn first_and_last_find_spelled_digits() {
    let names = day1::digit_names();
    assert_eq!(names.len(), 18);
    assert_eq!(names[0], ("1", 1));
    assert_eq!(names[8], ("9", 9));
    assert_eq!(names[9], ("one", 1));
    assert_eq!(names[17], ("nine", 9));
    let expect = [
        ("two1nine", 2, 9),
        ("eightwothree", 8, 3),
        ("abcone2threexyz", 1, 3),
        ("xtwone3four", 2, 4),
        ("4nineeightseven2", 4, 2),
        ("zoneight234", 1, 4),
        ("7pqrstsixteen", 7, 6),
        ("oneight", 1, 8),
        ("5", 5, 5),
    ];
    for (line, a, b) in expect {
        assert_eq!(day1::first(&names, line), Some(a), "{}", line);
        assert_eq!(day1::last(&names, line), Some(b), "{}", line);
    }
    assert_eq!(day1::first(&names, "nothing here"), None);
    assert_eq!(day1::last(&names, ""), None);
    let input = lines(
        "two1nine\neightwothree\nabcone2threexyz\nxtwone3four\n4nineeightseven2\nzoneight234\n7pqrstsixteen",
    );
    assert_eq!(day1::part2(&names, &input), Some(281));
    assert_eq!(day1::part2(&names, &lines("two1nine\n\nzoneight234")), None);
}

#[test]
fn first_and_last_break_ties_by_place_in_the_mapping() {
    let mapping = vec![("ab", 1), ("a", 2), ("b", 3), ("ab", 4)];
    // "ab" and "a" both stand first at index 0: the earlier entry wins.
    assert_eq!(day1::first(&mapping, "xxabxx"), Some(1));
    // "b" stands last at index 3, later than the rest.
    assert_eq!(day1::last(&mapping, "xxabxx"), Some(3));
    let twins = vec![("ab", 1), ("ab", 4)];
    assert_eq!(day1::first(&twins, "abab"), Some(1));
    assert_eq!(day1::last(&twins, "abab"), Some(4));
    assert_eq!(day1::find(&chars("abab"), &chars("ab")), Some(0));
    assert_eq!(day1::rfind(&chars("abab"), &chars("ab")), Some(2));
    assert_eq!(day1::find(&chars("abab"), &chars("")), Some(0));
    assert_eq!(day1::rfind(&chars("abab"), &chars("")), Some(4));
    assert_eq!(day1::rfind(&chars("abab"), &chars("x")), None);
    for (t, p) in [("hello", "l"), ("hello", "lo"), ("", ""), ("aaa", "aa"), ("abc", "abcd")] {
        assert_eq!(day1::find(&chars(t), &chars(p)), t.find(p));
        assert_eq!(day1::rfind(&chars(t), &chars(p)), t.rfind(p));
    }
}

#[test]
fn cubes_and_games_are_read() {
    let cubes = Cubes::parse("3 blue").unwrap();
    assert_eq!(cubes, Cubes { count: 3, color: "blue".to_string() });
    assert_eq!(Cubes::parse("blue"), None);
    assert_eq!(Cubes::parse("99999999999 blue"), None);
    assert_eq!(Cubes::parse("  12 red!"), Some(Cubes { count: 12, color: "red".to_string() }));
    let game = Game::parse("Game 1: 3 blue, 4 red; 1 red, 2 green, 6 blue; 2 green").unwrap();
    assert_eq!(game.id, 1);
    assert_eq!(game.handfuls.len(), 3);
    assert_eq!(
        game.handfuls[1],
        vec![
            Cubes { count: 1, color: "red".to_string() },
            Cubes { count: 2, color: "green".to_string() },
            Cubes { count: 6, color: "blue".to_string() },
        ]
    );
    assert_eq!(Game::parse("Game x: 3 blue"), None);
    assert_eq!(Game::parse("Game 2: 3 blue; nothing"), None);
    assert_eq!(Game::parse("Game 2: "), None);
}

#[test]
fn games_need_their_greatest_handfuls() {
    let input = [
        "Game 1: 3 blue, 4 red; 1 red, 2 green, 6 blue; 2 green",
        "Game 2: 1 blue, 2 green; 3 green, 4 blue, 1 red; 1 green, 1 blue",
        "Game 3: 8 green, 6 blue, 20 red; 5 blue, 4 red, 13 green; 5 green, 1 red",
        "Game 4: 1 green, 3 red, 6 blue; 3 green, 6 red; 3 green, 15 blue, 14 red",
        "Game 5: 6 red, 1 blue, 3 green; 2 blue, 1 red, 2 green",
    ];
    let games: Vec<Game> = input.iter().map(|l| Game::parse(l).unwrap()).collect();
    assert_eq!(games[0].max_count("red"), Some(4));
    assert_eq!(games[0].max_count("green"), Some(2));
    assert_eq!(games[0].max_count("blue"), Some(6));
    assert_eq!(games[0].max_count("pink"), None);
    assert_eq!(games[2].max_counts(), Some((20, 13, 6)));
    let valid: Vec<Option<bool>> = games.iter().map(|g| g.is_valid(12, 13, 14)).collect();
    assert_eq!(valid, vec![Some(true), Some(true), Some(false), Some(false), Some(true)]);
    let ids: u32 =
        games.iter().filter(|g| g.is_valid(12, 13, 14) == Some(true)).map(|g| g.id).sum();
    assert_eq!(ids, 8);
    let powers: Vec<Option<u32>> = games.iter().map(|g| g.power()).collect();
    assert_eq!(powers, vec![Some(48), Some(12), Some(1560), Some(630), Some(36)]);
    assert_eq!(powers.iter().map(|p| p.unwrap()).sum::<u32>(), 2286);
    let no_green = Game::parse("Game 9: 1 red, 2 blue").unwrap();
    assert_eq!(no_green.max_counts(), None);
    assert_eq!(no_green.is_valid(12, 13, 14), None);
    assert_eq!(no_green.power(), None);
    let huge = Game::parse("Game 9: 4000000000 red, 2 blue, 1 green").unwrap();
    assert_eq!(huge.power(), None);
    assert_eq!(huge.is_valid(12, 13, 14), Some(false));
}

#[test]
fn schematic_numbers_and_gears() {
    let schematic = grid(&[
        "467..114..",
        "...*......",
        "..35..633.",
        "......#...",
        "617*......",
        ".....+.58.",
        "..592.....",
        "......755.",
        "...$.*....",
        ".664.598..",
    ]);
    let parts = part_numbers(&schematic).unwrap();
    let values: Vec<u32> = parts.iter().map(|p| p.value).collect();
    assert_eq!(values, vec![467, 114, 35, 633, 617, 58, 592, 755, 664, 598]);
    let touching: Vec<bool> = parts.iter().map(|p| p.touches).collect();
    assert_eq!(touching, vec![true, false, true, true, true, false, true, true, true, true]);
    assert_eq!(parts[0].gear, Some((1, 3)));
    assert_eq!(parts[2].gear, Some((1, 3)));
    assert_eq!(parts[3].gear, None);
    assert_eq!(parts[4].gear, Some((4, 3)));
    assert_eq!(parts[7].gear, Some((8, 5)));
    assert_eq!(parts[9].gear, Some((8, 5)));
    assert_eq!(sum_of_parts(&parts), Some(4361));
    assert_eq!(gear_ratios(&schematic, &parts), Some(467835));
}

#[test]
fn schematic_edge_cases() {
    assert!(digit('0') && digit('9') && !digit('a') && !digit('/'));
    for c in "$-*/=@#%+&".chars() {
        assert!(symbol(c));
    }
    assert!(!symbol('.') && !symbol('1') && !symbol('!'));
    // Numbers at both ends of a row, and next to each other across rows.
    let schematic = grid(&["12*34", "5...6", "*7.8*"]);
    let parts = part_numbers(&schematic).unwrap();
    let values: Vec<u32> = parts.iter().map(|p| p.value).collect();
    assert_eq!(values, vec![12, 34, 5, 6, 7, 8]);
    assert!(parts.iter().all(|p| p.touches));
    assert_eq!(sum_of_parts(&parts), Some(72));
    assert_eq!(
        parts[0],
        PartNumber { value: 12, touches: true, gear: Some((0, 2)) }
    );
    // (0, 2) joins 12 and 34; (2, 0) joins 5 and 7; (2, 4) joins 6 and 8.
    assert_eq!(gear_ratios(&schematic, &parts), Some(12 * 34 + 5 * 7 + 6 * 8));
    let too_long = grid(&["4294967296*"]);
    assert_eq!(part_numbers(&too_long), None);
    let widest = grid(&["4294967295*"]);
    assert_eq!(sum_of_parts(&part_numbers(&widest).unwrap()), Some(4294967295));
    let three = grid(&["1*2", ".3."]);
    let parts = part_numbers(&three).unwrap();
    assert_eq!(gear_ratios(&three, &parts), Some(0));
    let none = grid(&["...", "..."]);
    assert_eq!(part_numbers(&none).unwrap().len(), 0);
    let product = grid(&["70000*70000"]);
    let parts = part_numbers(&product).unwrap();
    assert_eq!(gear_ratios(&product, &parts), None);
}

#[test]
fn a_number_keeps_the_gear_of_its_last_digit_with_one() {
    // The first digit of 12 sees one gear, the second sees two.
    let schematic = grid(&["*.*", "12.", "..."]);
    let parts = part_numbers(&schematic).unwrap();
    assert_eq!(parts[0].gear, Some((0, 0)));
    // Both digits see exactly one gear each: the later digit decides.
    let schematic = grid(&["*..*", ".12.", "...."]);
    let parts = part_numbers(&schematic).unwrap();
    assert_eq!(parts[0].gear, Some((0, 3)));
}

#[test]
fn cards_are_read_and_scored() {
    let input = [
        "Card 1: 41 48 83 86 17 | 83 86  6 31 17  9 48 53",
        "Card 2: 13 32 20 16 61 | 61 30 68 82 17 32 24 19",
        "Card 3:  1 21 53 59 44 | 69 82 63 72 16 21 14  1",
        "Card 4: 41 92 73 84 69 | 59 84 76 51 58  5 54 83",
        "Card 5: 87 83 26 28 32 | 88 30 70 12 93 22 82 36",
        "Card 6: 31 18 13 56 72 | 74 77 10 23 35 67 36 11",
    ];
    let cards: Vec<Card> = input.iter().map(|l| Card::parse(l).unwrap()).collect();
    assert_eq!(cards[0].id, 1);
    assert_eq!(cards[0].winners, vec![41, 48, 83, 86, 17]);
    assert_eq!(cards[0].numbers, vec![83, 86, 6, 31, 17, 9, 48, 53]);
    assert_eq!(cards[0].winning_numbers(), vec![83, 86, 17, 48]);
    assert_eq!(cards[2].winning_numbers(), vec![21, 1]);
    assert_eq!(cards[4].winning_numbers(), Vec::<u32>::new());
    let points: Vec<u32> = cards.iter().map(|c| c.points()).collect();
    assert_eq!(points, vec![8, 2, 2, 1, 0, 0]);
    assert_eq!(points.iter().sum::<u32>(), 13);
    let counts: Vec<usize> = cards.iter().map(|c| c.winning_numbers().len()).collect();
    assert_eq!(counts, vec![4, 2, 2, 1, 0, 0]);
    let instances: Vec<Option<u32>> =
        (0..counts.len()).map(|i| part2_instances(&counts, i, 0)).collect();
    assert_eq!(instances, vec![Some(15), Some(7), Some(4), Some(2), Some(1), Some(1)]);
    assert_eq!(instances.iter().map(|i| i.unwrap()).sum::<u32>(), 30);
    assert_eq!(Card::parse("Card 1: 41 48"), None);
    assert_eq!(Card::parse("Card one: 41 | 48"), None);
    let twice = Card::parse("Card 7: 5 | 5 5 6 5").unwrap();
    assert_eq!(twice.winning_numbers(), vec![5, 5, 5]);
    assert_eq!(twice.points(), 4);
}

#[test]
fn instances_double_from_card_to_card() {
    // Every card wins all cards below it: card i stands for 2^(n-1-i) cards.
    let counts: Vec<usize> = (0..20).map(|i| 19 - i).collect();
    assert_eq!(part2_instances(&counts, 19, 0), Some(1));
    assert_eq!(part2_instances(&counts, 16, 0), Some(8));
    assert_eq!(part2_instances(&counts, 6, 7), Some(8192));
    assert_eq!(part2_instances(&counts, 0, u32::MAX), Some(1 << 19));
}

#[test]
fn seed_maps_send_numbers_on() {
    assert_eq!(parse_range("50 98 2"), Some((50..52, 98..100)));
    assert_eq!(parse_range(" 52  50 48 7 x"), Some((52..100, 50..98)));
    assert_eq!(parse_range("52 50"), None);
    assert_eq!(parse_range("52 50 x"), None);
    assert_eq!(parse_range("18446744073709551615 0 1"), None);
    assert_eq!(parse_range("0 18446744073709551615 1"), None);
    assert_eq!(parse_range("0 0 18446744073709551615"), Some((0..u64::MAX, 0..u64::MAX)));
    let map = SeedMap::parse(&lines("seed-to-soil map:\n50 98 2\n52 50 48")).unwrap();
    assert_eq!(map.source, "seed");
    assert_eq!(map.destination, "soil");
    assert_eq!(map.ranges, vec![(50..52, 98..100), (52..100, 50..98)]);
    let expect = [(0, 0), (1, 1), (48, 48), (49, 49), (50, 52), (51, 53), (96, 98), (97, 99), (98, 50), (99, 51), (100, 100), (79, 81), (14, 14), (55, 57), (13, 13)];
    for (seed, soil) in expect {
        assert_eq!(map.mapped_to(seed), soil);
    }
    assert_eq!(SeedMap::parse(&vec![]), None);
    assert_eq!(SeedMap::parse(&lines("seed to soil map:\n50 98 2")), None);
    assert_eq!(SeedMap::parse(&lines("seed-to-soil map:\n50 98")), None);
    let overlapping = SeedMap::parse(&lines("a-to-b map:\n10 0 5\n20 3 5")).unwrap();
    assert_eq!(overlapping.mapped_to(4), 14);
    assert_eq!(overlapping.mapped_to(5), 22);
    assert_eq!(SeedMap::parse(&lines("a-to-b map:")).unwrap().mapped_to(7), 7);
}

#[test]
fn almanac_finds_the_lowest_location() {
    let text = "seed-to-soil map:\n50 98 2\n52 50 48\n\nsoil-to-fertilizer map:\n0 15 37\n37 52 2\n39 0 15\n\nfertilizer-to-water map:\n49 53 8\n0 11 42\n42 0 7\n57 7 4\n\nwater-to-light map:\n88 18 7\n18 25 70\n\nlight-to-temperature map:\n45 77 23\n81 45 19\n68 64 13\n\ntemperature-to-humidity map:\n0 69 1\n1 0 69\n\nhumidity-to-location map:\n60 56 37\n56 93 4";
    let maps: Vec<SeedMap> =
        text.split("\n\n").map(|section| SeedMap::parse(&lines(section)).unwrap()).collect();
    assert_eq!(maps.len(), 7);
    let seeds = parse_seeds("seeds: 79 14 55 13").unwrap();
    assert_eq!(seeds, vec![79, 14, 55, 13]);
    let places: Vec<u64> = seeds.iter().map(|s| location(&maps, *s)).collect();
    assert_eq!(places, vec![82, 43, 86, 35]);
    assert_eq!(lowest_location(&maps, &seeds), Some(35));
    assert_eq!(lowest_location(&maps, &vec![]), None);
    assert_eq!(location(&vec![], 5), 5);
    let ranges = seed_ranges(seeds.clone()).unwrap();
    assert_eq!(ranges, vec![79..93, 55..68]);
    assert_eq!(lowest_in_ranges(&maps, &ranges), 46);
    assert_eq!(lowest_in_ranges(&maps, &vec![]), u64::MAX);
    assert_eq!(lowest_in_ranges(&maps, &vec![5..5]), u64::MAX);
    assert_eq!(seed_ranges(vec![1, 2, 3]), Some(vec![1..3]));
    assert_eq!(seed_ranges(vec![]), Some(vec![]));
    assert_eq!(seed_ranges(vec![u64::MAX, 1]), None);
    assert_eq!(seed_ranges(vec![u64::MAX, 0]), Some(vec![u64::MAX..u64::MAX]));
    assert_eq!(parse_seeds("seeds:"), Some(vec![]));
    assert_eq!(parse_seeds("79 14"), Some(vec![79, 14]));
    assert_eq!(parse_seeds("seeds: 79 x"), None);
    assert_eq!(parse_seeds("a: 1 b: 2 3"), Some(vec![2, 3]));
}

#[test]
fn races_are_won_in_many_ways() {
    assert_eq!(ways_to_win(7, 9), 4);
    assert_eq!(ways_to_win(15, 40), 8);
    assert_eq!(ways_to_win(30, 200), 9);
    assert_eq!(ways_to_win(71530, 940200), 71503);
    assert_eq!(ways_to_win(0, 0), 0);
    assert_eq!(ways_to_win(1, 0), 0);
    assert_eq!(ways_to_win(2, 0), 1);
    assert_eq!(ways_to_win(2, 1), 0);
    assert_eq!(ways_to_win(10, 25), 0);
    assert_eq!(ways_to_win(10, 24), 1);
    let times = parse_numbers("Time:      7  15   30", u32::MAX as u64).unwrap();
    let distances = parse_numbers("Distance:  9  40  200", u32::MAX as u64).unwrap();
    assert_eq!(times, vec![7, 15, 30]);
    assert_eq!(distances, vec![9, 40, 200]);
    assert_eq!(margin(&times, &distances), Some(288));
    assert_eq!(margin(&vec![], &vec![]), Some(1));
    assert_eq!(margin(&vec![7, 15], &vec![9]), Some(4));
    assert_eq!(margin(&vec![10], &vec![25]), Some(0));
    assert_eq!(parse_joined("Time:      7  15   30"), Some(71530));
    assert_eq!(parse_joined("Distance:  9  40  200"), Some(940200));
    assert_eq!(parse_joined("Time:"), None);
    assert_eq!(parse_joined("Time 7"), None);
    assert_eq!(parse_joined("Time: 7 x"), None);
    assert_eq!(parse_numbers("Time 7", 9), None);
    assert_eq!(parse_numbers("Time: 7 10", 9), None);
    assert_eq!(parse_numbers("Time: 7 : 10", 9), Some(vec![7]));
}

#[test]
fn hands_have_a_kind_and_a_value() {
    assert_eq!(hand_strength(vec![5]), Some(6));
    assert_eq!(hand_strength(vec![4, 1]), Some(5));
    assert_eq!(hand_strength(vec![3, 2]), Some(4));
    assert_eq!(hand_strength(vec![3, 1, 1]), Some(3));
    assert_eq!(hand_strength(vec![2, 2, 1]), Some(2));
    assert_eq!(hand_strength(vec![2, 1, 1, 1]), Some(1));
    assert_eq!(hand_strength(vec![1, 1, 1, 1, 1]), Some(0));
    assert_eq!(hand_strength(vec![]), None);
    assert_eq!(hand_strength(vec![1, 4]), None);
    assert_eq!(hand_strength(vec![6]), None);
    assert_eq!(hand_strength(vec![2, 2, 2]), None);
    assert_eq!(card_counts(&chars("abracadabra")), vec![5, 2, 2, 1, 1]);
    assert_eq!(card_counts(&chars("")), Vec::<usize>::new());
    assert_eq!(card_counts(&chars("KK677")), vec![2, 2, 1]);
    let kinds = [
        ("AAAAA", 6, 6),
        ("AA8AA", 5, 5),
        ("23332", 4, 4),
        ("TTT98", 3, 3),
        ("23432", 2, 2),
        ("A23A4", 1, 1),
        ("23456", 0, 0),
        ("32T3K", 1, 1),
        ("T55J5", 3, 5),
        ("KK677", 2, 2),
        ("KTJJT", 2, 5),
        ("QQQJA", 3, 5),
        ("JJJJJ", 6, 6),
        ("JJJJ2", 5, 6),
        ("2345J", 0, 1),
        ("2233J", 2, 4),
    ];
    for (cards, plain, wild) in kinds {
        let hand = Hand { cards: cards.to_string(), bid: 1 };
        let hand2 = Hand2 { cards: cards.to_string(), bid: 1 };
        assert_eq!(hand.strength(), Some(plain), "{}", cards);
        assert_eq!(hand2.strength(), Some(wild), "{}", cards);
    }
    assert_eq!(Hand { cards: "AAAA".to_string(), bid: 1 }.strength(), None);
    assert_eq!(Hand2 { cards: "JJJJJJ".to_string(), bid: 1 }.strength(), None);
    assert_eq!(rank_of('2', false), Some(0));
    assert_eq!(rank_of('9', false), Some(7));
    assert_eq!(rank_of('T', false), Some(8));
    assert_eq!(rank_of('J', false), Some(9));
    assert_eq!(rank_of('Q', false), Some(10));
    assert_eq!(rank_of('K', false), Some(11));
    assert_eq!(rank_of('A', false), Some(12));
    assert_eq!(rank_of('J', true), Some(0));
    assert_eq!(rank_of('2', true), Some(1));
    assert_eq!(rank_of('9', true), Some(8));
    assert_eq!(rank_of('T', true), Some(9));
    assert_eq!(rank_of('Q', true), Some(10));
    assert_eq!(rank_of('1', false), None);
    assert_eq!(rank_of('a', true), None);
    assert_eq!(value_of(&chars("22222"), false), Some(0));
    assert_eq!(value_of(&chars("2222A"), false), Some(12));
    assert_eq!(value_of(&chars("32T3K"), false), Some(((((1 * 13) + 0) * 13 + 8) * 13 + 1) * 13 + 11));
    assert_eq!(value_of(&chars("AAAAA"), true), Some(13u32.pow(5) - 1));
    assert_eq!(value_of(&chars("JJJJJ"), true), Some(0));
    assert_eq!(value_of(&chars("AAAAAAAA"), false), Some(13u32.pow(8) - 1));
    assert_eq!(value_of(&chars("AAAAAAAAA"), false), None);
    assert_eq!(value_of(&chars("2x"), false), None);
    assert_eq!(Hand { cards: "32T3K".to_string(), bid: 1 }.value(), Some(29937));
    assert_eq!(Hand2 { cards: "32T3K".to_string(), bid: 1 }.value(), Some((((2 * 13 + 1) * 13 + 9) * 13 + 2) * 13 + 11));
}

#[test]
fn hands_win_by_rank() {
    let input = ["32T3K 765", "T55J5 684", "KK677 28", "KTJJT 220", "QQQJA 483"];
    assert_eq!(parse_hand_bid("32T3K 765"), Some(("32T3K".to_string(), 765)));
    assert_eq!(parse_hand_bid("32T3K 765 extra"), Some(("32T3K".to_string(), 765)));
    assert_eq!(parse_hand_bid("32T3K"), None);
    assert_eq!(parse_hand_bid("32T3K  765"), None);
    assert_eq!(parse_hand_bid("32T3K x"), None);
    let hands: Vec<Hand> = input.iter().map(|l| Hand::parse(l).unwrap()).collect();
    let keys: Vec<(u32, u32)> =
        hands.iter().map(|h| (h.strength().unwrap(), h.value().unwrap())).collect();
    let bids: Vec<usize> = hands.iter().map(|h| h.bid).collect();
    assert_eq!(total_winnings(&keys, &bids), Some(6440));
    let hands2: Vec<Hand2> = input.iter().map(|l| Hand2::parse(l).unwrap()).collect();
    let keys2: Vec<(u32, u32)> =
        hands2.iter().map(|h| (h.strength().unwrap(), h.value().unwrap())).collect();
    assert_eq!(total_winnings(&keys2, &bids), Some(5905));
    assert_eq!(total_winnings(&vec![], &vec![]), Some(0));
    // Equal hands keep their places: the first gets the lower rank.
    assert_eq!(total_winnings(&vec![(1, 1), (1, 1)], &vec![10, 1]), Some(10 + 2));
    assert_eq!(total_winnings(&vec![(1, 1), (1, 1)], &vec![1, 10]), Some(1 + 20));
    assert_eq!(total_winnings(&vec![(2, 0), (1, 9)], &vec![5, 7]), Some(2 * 5 + 7));
    assert_eq!(total_winnings(&vec![(1, 2), (1, 1)], &vec![usize::MAX, 1]), None);
    assert_eq!(total_winnings(&vec![(1, 1), (1, 2)], &vec![usize::MAX, 0]), Some(usize::MAX));
}

#[test]
fn nodes_are_walked() {
    let text = "AAA = (BBB, CCC)\nBBB = (DDD, EEE)\nCCC = (ZZZ, GGG)\nDDD = (DDD, DDD)\nEEE = (EEE, EEE)\nGGG = (GGG, GGG)\nZZZ = (ZZZ, ZZZ)";
    let nodes: Vec<Node> = text.lines().map(|l| Node::parse(l).unwrap()).collect();
    assert_eq!(nodes[0].name, "AAA");
    assert_eq!(nodes[0].instruction, ("BBB".to_string(), "CCC".to_string()));
    assert_eq!(Node::parse("AAA = BBB, CCC"), None);
    assert!(check_route(&chars("RL")));
    assert!(!check_route(&chars("")));
    assert!(!check_route(&chars("RxL")));
    assert_eq!(find_node(&nodes, &chars("CCC")), Some(2));
    assert_eq!(find_node(&nodes, &chars("XXX")), None);
    assert_eq!(get_count("RL", &nodes, "AAA", "ZZZ"), Some(2));
    assert_eq!(get_count("RL", &nodes, "AAA", "CCC"), Some(1));
    assert_eq!(get_count("RL", &nodes, "ZZZ", "ZZZ"), Some(1));
    assert_eq!(get_count("RL", &nodes, "AAA", "AAA"), None);
    assert_eq!(get_count("RL", &nodes, "AAA", "DDD"), None);
    assert_eq!(get_count("L", &nodes, "AAA", "DDD"), Some(2));
    assert_eq!(get_count("RL", &nodes, "QQQ", "ZZZ"), None);
    let text = "AAA = (BBB, BBB)\nBBB = (AAA, ZZZ)\nZZZ = (ZZZ, ZZZ)";
    let nodes: Vec<Node> = text.lines().map(|l| Node::parse(l).unwrap()).collect();
    assert_eq!(get_count("LLR", &nodes, "AAA", "ZZZ"), Some(6));
    let dangling = vec![Node::parse("AAA = (BBB, BBB)").unwrap()];
    assert_eq!(get_count("L", &dangling, "AAA", "ZZZ"), None);
    assert_eq!(get_count("L", &dangling, "AAA", "BBB"), Some(1));
}

#[test]
fn walks_stop_at_the_step_limit() {
    let nodes = vec![
        Node { name: "A".to_string(), instruction: ("A".to_string(), "B".to_string()) },
        Node { name: "B".to_string(), instruction: ("B".to_string(), "B".to_string()) },
    ];
    let route = |lefts: usize| format!("{}R", "L".repeat(lefts));
    assert_eq!(get_count(&route(0), &nodes, "A", "B"), Some(1));
    assert_eq!(get_count(&route(29_999), &nodes, "A", "B"), Some(30_000));
    assert_eq!(get_count(&route(30_000), &nodes, "A", "B"), Some(30_001));
    assert_eq!(get_count(&route(30_001), &nodes, "A", "B"), None);
    assert_eq!(get_count("L", &nodes, "A", "B"), None);
    assert_eq!(get_count("L", &nodes, "A", "A"), Some(1));
}

#[test]
fn ghosts_meet_at_the_common_multiple() {
    let text = "11A = (11B, XXX)\n11B = (XXX, 11Z)\n11Z = (11B, XXX)\n22A = (22B, XXX)\n22B = (22C, 22C)\n22C = (22Z, 22Z)\n22Z = (22B, 22B)\nXXX = (XXX, XXX)";
    let nodes: Vec<Node> = text.lines().map(|l| Node::parse(l).unwrap()).collect();
    assert_eq!(nodes_ending_with(&nodes, "A"), vec!["11A", "22A"]);
    assert_eq!(nodes_ending_with(&nodes, "Z"), vec!["11Z", "22Z"]);
    assert_eq!(nodes_ending_with(&nodes, "XX"), vec!["XXX"]);
    assert_eq!(nodes_ending_with(&nodes, "11AA"), Vec::<String>::new());
    assert_eq!(nodes_ending_with(&nodes, "").len(), 8);
    assert_eq!(get_count("LR", &nodes, "11A", "11Z"), Some(2));
    assert_eq!(get_count("LR", &nodes, "22A", "22Z"), Some(3));
    assert_eq!(get_count("LR", &nodes, "11A", "22Z"), None);
    assert_eq!(day8::part2("LR", &nodes), Some(6));
    assert_eq!(day8::part2("LR", &vec![]), None);
    assert_eq!(lcm_checked(&vec![]), None);
    assert_eq!(lcm_checked(&vec![7]), Some(7));
    assert_eq!(lcm_checked(&vec![0]), Some(0));
    assert_eq!(lcm_checked(&vec![1, 2, 3, 4]), Some(12));
    assert_eq!(lcm_checked(&vec![1, 2, 3, 99]), Some(198));
    assert_eq!(lcm_checked(&vec![6, 4]), Some(12));
    assert_eq!(lcm_checked(&vec![4, 6, 10]), Some(60));
    assert_eq!(lcm_checked(&vec![0, 5]), Some(0));
    assert_eq!(lcm_checked(&vec![5, 0]), None);
    assert_eq!(lcm_checked(&vec![1 << 40, 1 << 40]), None);
    assert_eq!(lcm_checked(&vec![1 << 31, 1 << 31]), Some(1 << 31));
    assert_eq!(lcm_checked(&vec![u64::MAX, 1]), Some(u64::MAX));
    assert_eq!(lcm_checked(&vec![u64::MAX, 2]), None);
}

#[test]
fn histories_are_extended() {
    assert_eq!(
        day9::extrapolate(&vec![0, 3, 6, 9, 12, 15]),
        Some(vec![vec![0, 3, 6, 9, 12, 15], vec![3, 3, 3, 3, 3], vec![0, 0, 0, 0]])
    );
    assert_eq!(
        day9::extrapolate(&vec![1, 3, 6, 10, 15, 21]),
        Some(vec![
            vec![1, 3, 6, 10, 15, 21],
            vec![2, 3, 4, 5, 6],
            vec![1, 1, 1, 1],
            vec![0, 0, 0]
        ])
    );
    assert_eq!(day9::extrapolate(&vec![]), Some(vec![vec![], vec![]]));
    assert_eq!(day9::extrapolate(&vec![5]), Some(vec![vec![5], vec![]]));
    assert_eq!(day9::extrapolate(&vec![0, 0]), Some(vec![vec![0, 0], vec![0]]));
    assert_eq!(day9::extrapolate(&vec![1, 2]), Some(vec![vec![1, 2], vec![1], vec![]]));
    assert_eq!(day9::extrapolate(&vec![i32::MIN, i32::MAX]), None);
    assert_eq!(day9::extrapolate(&vec![i32::MIN, 0, i32::MAX]), None);
    assert_eq!(
        day9::extrapolate(&vec![i32::MAX, 0, i32::MIN]),
        Some(vec![vec![i32::MAX, 0, i32::MIN], vec![-i32::MAX, i32::MIN], vec![-1], vec![]])
    );
    assert_eq!(day9::next_row(&vec![1, 4, 9]), Some(vec![3, 5]));
    assert_eq!(day9::next_row(&vec![]), Some(vec![]));
    assert_eq!(day9::next_row(&vec![i32::MAX, -1]), Some(vec![i32::MIN]));
    assert_eq!(day9::next_row(&vec![i32::MAX, -2]), None);
    assert_eq!(day9::next_row(&vec![i32::MIN, 0]), None);
    assert!(day9::is_all_zero(&vec![]));
    assert!(day9::is_all_zero(&vec![0, 0]));
    assert!(!day9::is_all_zero(&vec![0, 1]));
    let histories = [vec![0, 3, 6, 9, 12, 15], vec![1, 3, 6, 10, 15, 21], vec![10, 13, 16, 21, 30, 45]];
    let next: Vec<Option<i32>> = histories.iter().map(|h| day9::part1(h)).collect();
    assert_eq!(next, vec![Some(18), Some(28), Some(68)]);
    let before: Vec<Option<i32>> = histories.iter().map(|h| day9::part2(h)).collect();
    assert_eq!(before, vec![Some(-3), Some(0), Some(5)]);
    assert_eq!(day9::part1(&vec![]), None);
    assert_eq!(day9::part1(&vec![5]), None);
    assert_eq!(day9::part1(&vec![1, 2]), None);
    assert_eq!(day9::part1(&vec![7, 7]), Some(7));
    assert_eq!(day9::part2(&vec![7, 7]), Some(7));
    assert_eq!(day9::part2(&vec![1, 2]), None);
    assert_eq!(day9::part1(&vec![i32::MAX - 1, i32::MAX - 1, i32::MAX - 1]), Some(i32::MAX - 1));
    assert_eq!(day9::part1(&vec![i32::MAX - 2, i32::MAX - 1, i32::MAX]), None);
    assert_eq!(day9::part2(&vec![i32::MIN, i32::MIN + 1, i32::MIN + 2]), None);
    assert_eq!(day9::part1(&vec![-5, -3, -1]), Some(1));
}
