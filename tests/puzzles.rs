use aoc::syntax_scoring::{parse_input_char, solve, ChunkDelimiter, ChunkDelimiterSymbol};
use aoc::{
    binary_diagnostic, bingo, boat_races, camel_cards, cube_conundrum, dive, gear_ratios,
    hydrothermal, lanternfish, scratchcards, seven_segment, sonar_sweep, syntax_scoring,
    treachery_of_whales, trebuchet,
};

const DEPTHS: &str = "199\n200\n208\n210\n200\n207\n240\n269\n260\n263\n";

#[test]
fn sonar_sweep_counts_increases() {
    assert_eq!(sonar_sweep::part_one(DEPTHS), Some(7));
    assert_eq!(sonar_sweep::part_two(DEPTHS), Some(5));
}

#[test]
fn sonar_sweep_short_and_bad_reports() {
    assert_eq!(sonar_sweep::part_one("5"), Some(0));
    assert_eq!(sonar_sweep::part_two("1\n2\n3"), Some(0));
    assert_eq!(sonar_sweep::part_one("1\nx\n3"), None);
    assert_eq!(sonar_sweep::parse_input("1\n2\n"), Some(vec![1, 2]));
    assert_eq!(sonar_sweep::parse_input("1\n\n2"), None);
}

#[test]
fn sonar_sweep_large_depths_do_not_overflow() {
    let input = "4294967295\n4294967295\n4294967295\n0\n";
    assert_eq!(sonar_sweep::part_two(input), Some(0));
    assert_eq!(sonar_sweep::part_one(input), Some(0));
}

#[test]
fn trebuchet_digits_only() {
    let input = "1abc2\npqr3stu8vwx\na1b2c3d4e5f\ntreb7uchet";
    assert_eq!(trebuchet::part_one(input), Some(142));
}

#[test]
fn trebuchet_spelled_digits() {
    let input = "two1nine\neightwothree\nabcone2threexyz\nxtwone3four\n4nineeightseven2\nzoneight234\n7pqrstsixteen";
    assert_eq!(trebuchet::part_two(input), Some(281));
}

#[test]
fn trebuchet_line_values() {
    let line: Vec<char> = "zoneight".chars().collect();
    assert_eq!(trebuchet::solve_with_alpha(&line), Some(18));
    assert_eq!(trebuchet::solve_without_alpha(&line), None);
    let line: Vec<char> = "a7".chars().collect();
    assert_eq!(trebuchet::solve(&line, false), Some(77));
    assert_eq!(trebuchet::part_one("abc"), None);
}

#[test]
fn lanternfish_example() {
    assert_eq!(lanternfish::part_one("3,4,3,1,2"), Some(5934));
    assert_eq!(lanternfish::part_two("3,4,3,1,2"), Some(26984457539));
    assert_eq!(lanternfish::solve(&[3, 4, 3, 1, 2], 18), Some(26));
}

#[test]
fn lanternfish_parse_and_bad_timers() {
    assert_eq!(lanternfish::parse_input("3,4,x,1"), vec![3, 4, 1]);
    assert_eq!(lanternfish::parse_input("3,4\n"), vec![3]);
    assert_eq!(lanternfish::solve(&[9], 1), None);
    assert_eq!(lanternfish::solve(&[], 10), Some(0));
    assert_eq!(lanternfish::solve(&[0], 1), Some(2));
}

const CHUNKS: &str = "[({(<(())[]>[[{[]{<()<>>
[(()[<>])]({[<{<<[]>>(
{([(<{}[<>[]}>{[]{[(<()>
(((({<>}<{<{<>}{[]{[]{}
[[<[([]))<([[{}[[()]]]
[{[{({}]{}}([{[{{{}}([]
{<[[]]>}<{[{[{[]{()[[[]
[<(<(<(<{}))><([]([]()
<{([([[(<>()){}]>(<<{{
<{([{{}}[<[[[<>{}]]]>[]]
";

#[test]
fn syntax_scoring_example() {
    assert_eq!(syntax_scoring::part_one(CHUNKS), Some(26397));
    assert_eq!(syntax_scoring::part_two(CHUNKS), Some(288957));
}

#[test]
fn syntax_scoring_single_lines() {
    let line: Vec<ChunkDelimiter> = "{([(<{}[<>[]}>{[]{[(<()>"
        .chars()
        .map(|c| parse_input_char(c).unwrap())
        .collect();
    assert_eq!(solve(&line), Some((false, 1197)));
    let line: Vec<ChunkDelimiter> = "<{([".chars().map(|c| parse_input_char(c).unwrap()).collect();
    assert_eq!(solve(&line), Some((true, 294)));
    assert_eq!(solve(&[]), Some((true, 0)));
    assert_eq!(
        parse_input_char(']'),
        Some(ChunkDelimiter::Close(ChunkDelimiterSymbol::B))
    );
    assert_eq!(parse_input_char('x'), None);
}

#[test]
fn syntax_scoring_rejects_and_overflows() {
    assert_eq!(syntax_scoring::part_one("(]x"), None);
    assert_eq!(syntax_scoring::part_two("()\n(]"), Some(0));
    let deep = "<".repeat(40);
    assert_eq!(syntax_scoring::part_two(&deep), None);
    assert_eq!(syntax_scoring::part_one(&deep), Some(0));
    assert_eq!(syntax_scoring::part_two("(\n[\n{"), Some(2));
}

const BINGO: &str = "7,4,9,5,11,17,23,2,0,14,21,24,10,16,13,6,15,25,12,22,18,20,8,19,3,26,1

22 13 17 11  0
 8  2 23  4 24
21  9 14 16  7
 6 10  3 18  5
 1 12 20 15 19

 3 15  0  2 22
 9 18 13 17  5
19  8  7 25 23
20 11 10 24  4
14 21 16 12  6

14 21 17 24  4
10 16 15  9 19
18  8 23 26 20
22 11 13  6  5
 2  0 12  3  7
";

#[test]
fn bingo_example() {
    assert_eq!(bingo::part_one(BINGO), Some(4512));
    assert_eq!(bingo::part_two(BINGO), Some(1924));
}

#[test]
fn bingo_parse_shapes() {
    let (numbers, boards) = bingo::parse_input(BINGO).unwrap();
    assert_eq!(numbers.len(), 27);
    assert_eq!(numbers[4], 11);
    assert_eq!(boards.len(), 3);
    assert_eq!(boards[1].values.get(2, 3), Some(&25));
    assert!(bingo::parse_input("").is_none());
    assert!(bingo::parse_input("1,2\n\n1 2 3\n").is_none());
    let (numbers, boards) = bingo::parse_input("5,6").unwrap();
    assert_eq!(numbers, vec![5, 6]);
    assert!(boards.is_empty());
    assert_eq!(bingo::part_two("5,6"), None);
    assert_eq!(bingo::part_one("5,6"), None);
}

#[test]
fn bingo_pick_marks_and_reports_lines() {
    let (_, mut boards) = bingo::parse_input(BINGO).unwrap();
    let board = &mut boards[0];
    for n in [22, 13, 17, 11] {
        assert!(!board.pick(n));
    }
    assert_eq!(board.picked.get(0, 3), Some(&true));
    assert_eq!(board.picked.get(1, 0), Some(&false));
    assert!(board.pick(0));
    assert_eq!(bingo::sum_unpicked_board_values(board), 300 - 63);
    let line: Vec<char> = " 1  2 x 3".chars().collect();
    assert_eq!(bingo::parse_board_line(&line), vec![1, 2, 3]);
    let line: Vec<char> = "4,,5,a".chars().collect();
    assert_eq!(bingo::parse_selected_numbers(&line), vec![4, 5]);
}

#[test]
fn bingo_column_wins() {
    let (_, mut boards) = bingo::parse_input(BINGO).unwrap();
    let board = &mut boards[2];
    for n in [14, 10, 18, 22] {
        assert!(!board.pick(n));
    }
    assert!(board.pick(2));
}

const VENTS: &str = "0,9 -> 5,9
8,0 -> 0,8
9,4 -> 3,4
2,2 -> 2,1
7,0 -> 7,4
6,4 -> 2,0
0,9 -> 2,9
3,4 -> 1,4
0,0 -> 8,8
5,5 -> 8,2
";

#[test]
fn hydrothermal_example() {
    assert_eq!(hydrothermal::part_one(VENTS), Some(5));
    assert_eq!(hydrothermal::part_two(VENTS), Some(12));
}

#[test]
fn hydrothermal_parse_and_limits() {
    let lines = hydrothermal::parse_input("1,2 -> 3,4\n10,0 -> 0,10").unwrap();
    assert_eq!(lines.len(), 2);
    assert_eq!((lines[0].ax, lines[0].ay, lines[0].bx, lines[0].by), (1, 2, 3, 4));
    assert_eq!((lines[1].ax, lines[1].by), (10, 10));
    assert!(hydrothermal::parse_input("1,2 3,4").is_none());
    assert!(hydrothermal::parse_input("1 -> 3,4").is_none());
    assert_eq!(hydrothermal::part_two("0,0 -> 1000,0"), None);
    assert_eq!(hydrothermal::part_one("0,0 -> 1000,5"), Some(0));
    assert_eq!(hydrothermal::part_one("0,0 -> 0,0\n0,0 -> 0,0"), Some(1));
    assert_eq!(hydrothermal::part_two("999,999 -> 998,998\n998,998 -> 999,999"), Some(2));
}

const COURSE: &str = "forward 5\ndown 5\nforward 8\nup 3\ndown 8\nforward 2\n";

#[test]
fn dive_example() {
    assert_eq!(dive::part_one(COURSE), Some(150));
    assert_eq!(dive::part_two(COURSE), Some(900));
}

#[test]
fn dive_parse_and_overflow() {
    assert_eq!(
        dive::parse_input("forward -3\nup +2\ndown 0"),
        Some(vec![dive::Command::F(-3), dive::Command::U(2), dive::Command::D(0)])
    );
    assert_eq!(dive::parse_input("sideways 3"), None);
    assert_eq!(dive::parse_input("up"), None);
    assert_eq!(dive::parse_input("up 2147483648"), None);
    assert_eq!(
        dive::parse_input("down -2147483648"),
        Some(vec![dive::Command::D(i32::MIN)])
    );
    assert_eq!(dive::part_one("forward 2147483647\nforward 1"), None);
    assert_eq!(dive::part_one("forward 70000\ndown 70000"), None);
    assert_eq!(dive::part_one("up 4\nforward 3"), Some(-12));
    assert_eq!(dive::part_two("down 70000\nforward 70000"), None);
}

const GAMES: &str = "Game 1: 3 blue, 4 red; 1 red, 2 green, 6 blue; 2 green
Game 2: 1 blue, 2 green; 3 green, 4 blue, 1 red; 1 green, 1 blue
Game 3: 8 green, 6 blue, 20 red; 5 blue, 4 red, 13 green; 5 green, 1 red
Game 4: 1 green, 3 red, 6 blue; 3 green, 6 red; 3 green, 15 blue, 14 red
Game 5: 6 red, 1 blue, 3 green; 2 blue, 1 red, 2 green
";

#[test]
fn cube_conundrum_example() {
    assert_eq!(cube_conundrum::part_one(GAMES), Some(8));
    assert_eq!(cube_conundrum::part_two(GAMES), Some(2286));
}

#[test]
fn cube_conundrum_games() {
    let games = cube_conundrum::parse_input(GAMES).unwrap();
    assert_eq!(games.len(), 5);
    assert_eq!(games[2].index, 3);
    assert_eq!(games[0].draws, vec![[4, 0, 3], [1, 2, 6], [0, 2, 0]]);
    assert!(cube_conundrum::valid_game(&games[0]));
    assert!(!cube_conundrum::valid_game(&games[2]));
    assert!(cube_conundrum::valid_draw(&[12, 13, 14]));
    assert!(!cube_conundrum::valid_draw(&[12, 14, 14]));
    assert_eq!(cube_conundrum::minimum_cubes(&games[0]), [4, 2, 6]);
    assert_eq!(cube_conundrum::part_one_each(&games[2]), 0);
    assert_eq!(cube_conundrum::part_one_each(&games[1]), 2);
    assert_eq!(cube_conundrum::part_two_each(&games[3]), Some(630));
}

#[test]
fn cube_conundrum_rejects() {
    assert!(cube_conundrum::parse_input("Game 1 3 blue").is_none());
    assert!(cube_conundrum::parse_input("Gam 1: 3 blue").is_none());
    assert!(cube_conundrum::parse_input("Game 1: 3 purple").is_none());
    assert!(cube_conundrum::parse_input("Game 1: blue").is_none());
    let games = cube_conundrum::parse_input("Game 7: 1 red, 2 red").unwrap();
    assert_eq!(games[0].draws, vec![[2, 0, 0]]);
    assert_eq!(
        cube_conundrum::part_two("Game 1: 70000 red, 70000 green, 0 blue"),
        None
    );
    assert_eq!(cube_conundrum::part_two("Game 1: 7 red, 7 green"), Some(0));
}

const RACES: &str = "Time:      7  15   30\nDistance:  9  40  200\n";

#[test]
fn boat_races_example() {
    assert_eq!(boat_races::part_one(RACES), Some(288));
    assert_eq!(boat_races::part_two(RACES), Some(71503));
}

#[test]
fn boat_races_pieces() {
    let races = boat_races::parse_input(RACES).unwrap();
    assert_eq!(races.len(), 3);
    assert_eq!((races[2].time, races[2].dist), (30, 200));
    assert_eq!(boat_races::calculate_dist(3, 7), Some(12));
    assert_eq!(boat_races::calculate_dist(0, 7), Some(0));
    assert_eq!(boat_races::solve(&races[0]), Some(4));
    let merged = boat_races::merge_races(&races).unwrap();
    assert_eq!((merged.time, merged.dist), (71530, 940200));
    assert!(boat_races::parse_input("Time: 1\n").is_none());
    assert!(boat_races::parse_input("Times 1\nDistance: 2").is_none());
    let short = boat_races::parse_input("Time: 1 2 3\nDistance: 4").unwrap();
    assert_eq!(short.len(), 1);
    assert_eq!(boat_races::part_one("Time:\nDistance:"), Some(1));
    let big = boat_races::Race { time: u64::MAX, dist: 0 };
    assert_eq!(boat_races::solve(&big), None);
}

const CARDS: &str = "Card 1: 41 48 83 86 17 | 83 86  6 31 17  9 48 53
Card 2: 13 32 20 16 61 | 61 30 68 82 17 32 24 19
Card 3:  1 21 53 59 44 | 69 82 63 72 16 21 14  1
Card 4: 41 92 73 84 69 | 59 84 76 51 58  5 54 83
Card 5: 87 83 26 28 32 | 88 30 70 12 93 22 82 36
Card 6: 31 18 13 56 72 | 74 77 10 23 35 67 36 11
";

#[test]
fn scratchcards_example() {
    assert_eq!(scratchcards::part_one(CARDS), Some(13));
    assert_eq!(scratchcards::part_two(CARDS), Some(30));
}

#[test]
fn scratchcards_pieces() {
    assert_eq!(scratchcards::parse_input(CARDS), Some(vec![4, 2, 2, 1, 0, 0]));
    let line: Vec<char> = "Card 9: 5 5 7 | 5 5 8".chars().collect();
    assert_eq!(scratchcards::parse_input_line(&line), Some(1));
    let line: Vec<char> = "Card 9 5 | 5".chars().collect();
    assert_eq!(scratchcards::parse_input_line(&line), None);
    let text: Vec<char> = " 1  x 22 ".chars().collect();
    assert_eq!(scratchcards::parse_input_numbers(&text), vec![1, 22]);
    assert_eq!(scratchcards::part_one_each(&0), Some(0));
    assert_eq!(scratchcards::part_one_each(&1), Some(1));
    assert_eq!(scratchcards::part_one_each(&4), Some(8));
    assert_eq!(scratchcards::part_one_each(&32), Some(1 << 31));
    assert_eq!(scratchcards::part_one_each(&33), None);
    assert_eq!(scratchcards::part_two("Card 1: 1 | 1"), None);
    assert_eq!(scratchcards::part_two("Card 1: 1 | 2"), Some(1));
}

const SCHEMATIC: &str = "467..114..
...*......
..35..633.
......#...
617*......
.....+.58.
..592.....
......755.
...$.*....
.664.598..
";

#[test]
fn gear_ratios_example() {
    assert_eq!(gear_ratios::part_one(SCHEMATIC), Some(4361));
    assert_eq!(gear_ratios::part_two(SCHEMATIC), Some(467835));
}

#[test]
fn gear_ratios_schematic() {
    let s = gear_ratios::parse_input(SCHEMATIC).unwrap();
    assert_eq!(s.numbers.len(), 10);
    assert_eq!(s.numbers[0], 467);
    assert_eq!(s.grid.get(0, 2), Some(&gear_ratios::SchematicValue::Number(0)));
    assert_eq!(s.grid.get(1, 3), Some(&gear_ratios::SchematicValue::Symbol('*')));
    assert_eq!(s.grid.get(0, 3), Some(&gear_ratios::SchematicValue::Empty));
    assert_eq!(s.grid.get(139, 139), Some(&gear_ratios::SchematicValue::Empty));
    assert_eq!(gear_ratios::collect_part_set(&s, (1, 3)), vec![0, 2]);
    let wide = "1".repeat(141);
    assert!(gear_ratios::parse_input(&wide).is_none());
    assert!(gear_ratios::parse_input("99999999999").is_none());
    assert_eq!(gear_ratios::part_one("12*12"), Some(24));
    assert_eq!(gear_ratios::part_two("12*12"), Some(144));
    assert_eq!(gear_ratios::part_two("12*\n.12"), Some(144));
    assert_eq!(gear_ratios::part_one("5.\n.5"), Some(0));
}

const HANDS: &str = "32T3K 765\nT55J5 684\nKK677 28\nKTJJT 220\nQQQJA 483\n";

#[test]
fn camel_cards_example() {
    assert_eq!(camel_cards::part_one(HANDS), Some(6440));
    assert_eq!(camel_cards::part_two(HANDS), Some(5905));
}

#[test]
fn camel_cards_kinds_and_keys() {
    check_kinds();
    let hands = camel_cards::parse_input(HANDS).unwrap();
    assert_eq!(hands[0].cards, [3, 2, 10, 3, 13]);
    assert_eq!(hands[0].bid, 765);
    assert_eq!(hands[1].score, camel_cards::HandScore::ThreeKind);
    assert_eq!(hands[2].score, camel_cards::HandScore::TwoPair);
    assert!(camel_cards::sort_key(&hands[2]) > camel_cards::sort_key(&hands[3]));
    assert!(camel_cards::sort_key(&hands[4]) > camel_cards::sort_key(&hands[1]));
    assert_eq!(camel_cards::parse_card('A'), Some(14));
    assert_eq!(camel_cards::parse_card('7'), Some(7));
    assert_eq!(camel_cards::parse_card('x'), None);
    assert!(camel_cards::parse_input("AAAA 1").is_none());
    assert!(camel_cards::parse_input("AAAAX 1").is_none());
    assert!(camel_cards::parse_input("AAAAA").is_none());
    assert_eq!(camel_cards::total_winnings(&hands), Some(6440));
    assert_eq!(camel_cards::part_one("AAAAA 3\nAAAAA 5"), Some(13));
}

fn check_kinds() {
    check_kind([1, 1, 1, 1, 1], camel_cards::HandScore::FiveKind);
    check_kind([1, 2, 2, 3, 3], camel_cards::HandScore::FullHouse);
    check_kind([1, 2, 3, 4, 5], camel_cards::HandScore::OnePair);
    check_kind([2, 3, 4, 5, 6], camel_cards::HandScore::Single);
    check_kind([9, 9, 9, 9, 1], camel_cards::HandScore::FiveKind);
    check_kind([9, 9, 8, 8, 1], camel_cards::HandScore::FullHouse);
    check_kind([9, 9, 8, 7, 1], camel_cards::HandScore::ThreeKind);
    check_kind([9, 9, 8, 8, 7], camel_cards::HandScore::TwoPair);
    check_kind([9, 9, 9, 8, 7], camel_cards::HandScore::ThreeKind);
    check_kind([9, 9, 9, 9, 7], camel_cards::HandScore::FourKind);
}

fn check_kind(cards: [u32; 5], kind: camel_cards::HandScore) {
    assert_eq!(camel_cards::find_score(&cards), kind);
}

const REPORT: &str = "00100\n11110\n10110\n10111\n10101\n01111\n00111\n11100\n10000\n11001\n00010\n01010\n";

fn wide_report() -> String {
    REPORT.lines().map(|l| format!("{}0000000\n", l)).collect()
}

#[test]
fn binary_diagnostic_twelve_bit_report() {
    let report = wide_report();
    assert_eq!(binary_diagnostic::part_one(&report), Some(3601664));
    assert_eq!(binary_diagnostic::part_two(&report), Some(3768320));
    let values = binary_diagnostic::parse_input(&report).unwrap();
    assert_eq!(binary_diagnostic::part_two_search(&values, true), Some(23 << 7));
    assert_eq!(binary_diagnostic::part_two_search(&values, false), Some(10 << 7));
}

#[test]
fn binary_diagnostic_short_report() {
    assert_eq!(binary_diagnostic::part_one(REPORT), Some(89606));
    assert_eq!(binary_diagnostic::part_two(REPORT), None);
    let values = binary_diagnostic::parse_input(REPORT).unwrap();
    assert_eq!(values[0], 2);
    assert_eq!(values[11], 30);
    assert_eq!(binary_diagnostic::part_two_search(&values, true), Some(23));
    assert!(binary_diagnostic::parse_input("102").is_none());
    assert!(binary_diagnostic::parse_input("+").is_none());
    assert_eq!(binary_diagnostic::parse_input("+11"), Some(vec![3]));
    assert!(binary_diagnostic::parse_input(&"1".repeat(33)).is_none());
    assert!(binary_diagnostic::read_bit(0b100, 2));
    assert!(!binary_diagnostic::read_bit(0b100, 1));
    assert!(binary_diagnostic::read_bit(u32::MAX, 31));
    assert_eq!(binary_diagnostic::part_two_search(&[], true), None);
}

const DISPLAYS: &str = "be cfbegad cbdgef fgaecd cgeb fdcge agebfd fecdb fabcd edb | fdgacbe cefdb cefbgd gcbe\nedbfga begcd cbg gc gcadebf fbgde acbgfd abcde gfcbed gfec | fcgedb cgb dgebacf gc\nfgaebd cg bdaec gdafb agbcfd gdcbef bgcad gfac gcb cdgabef | cg cg fdcagb cbg\nfbegcd cbd adcefb dageb afcb bc aefdc ecdab fgdeca fcdbega | efabcd cedba gadfec cb\naecbfdg fbg gf bafeg dbefa fcge gcbea fcaegb dgceab fcbdga | gecf egdcabf bgf bfgea\nfgeab ca afcebg bdacfeg cfaedg gcfdb baec bfadeg bafgc acf | gebdcfa ecba ca fadegcb\ndbcfg fgd bdegcaf fgec aegbdf ecdfab fbedc dacgb gdcebf gf | cefg dcbef fcge gbcadfe\nbdfegc cbegaf gecbf dfcage bdacg ed bedf ced adcbefg gebcd | ed bcgafe cdgba cbgef\negadfb cdbfeg cegd fecab cgb gbdefca cg fgcdab egfdb bfceg | gbdfcae bgc cg cgb\ngcafb gcf dcaebfg ecagb gf abcdeg gaef cafbge fdbac fegbdc | fgae cfgab fg bagce\n";

#[test]
fn seven_segment_example() {
    assert_eq!(seven_segment::part_one(DISPLAYS), Some(26));
    assert_eq!(seven_segment::part_two(DISPLAYS), Some(61229));
}

#[test]
fn seven_segment_pieces() {
    let text: Vec<char> = "ab gfedcba x".chars().collect();
    assert_eq!(seven_segment::parse_input_part(&text), vec![6, 254, 0]);
    assert_eq!(seven_segment::cardinality(254), 7);
    assert_eq!(seven_segment::cardinality(0), 0);
    assert_eq!(seven_segment::cardinality(255), 8);
    let displays = seven_segment::parse_input(DISPLAYS).unwrap();
    assert_eq!(displays.len(), 10);
    let digits = seven_segment::solve_digit_mapping(&displays[0].signals).unwrap();
    assert_eq!(seven_segment::lookup_digit(&digits, displays[0].outputs[0]), Some(8));
    assert_eq!(seven_segment::lookup_digit(&digits, 1), None);
    assert!(seven_segment::parse_input("ab cd").is_none());
    assert_eq!(seven_segment::solve_digit_mapping(&[6, 14]), None);
    assert_eq!(seven_segment::part_two("ab | ab"), None);
    assert_eq!(seven_segment::part_one("ab | ab abc x"), Some(2));
}

const CRABS: &str = "16,1,2,0,4,2,7,1,2,14";

#[test]
fn treachery_of_whales_example() {
    assert_eq!(treachery_of_whales::part_one(CRABS), Some(37));
    assert_eq!(treachery_of_whales::part_two(CRABS), Some(168));
}

#[test]
fn treachery_of_whales_pieces() {
    assert_eq!(treachery_of_whales::parse_input("3,x,4\n"), vec![3]);
    assert_eq!(treachery_of_whales::simple_cost(7), Some(7));
    assert_eq!(treachery_of_whales::complex_cost(4), Some(10));
    assert_eq!(treachery_of_whales::complex_cost(0), Some(0));
    assert_eq!(treachery_of_whales::complex_cost(65536), None);
    assert_eq!(treachery_of_whales::part_one(""), None);
    assert_eq!(treachery_of_whales::part_one("5,5"), None);
    assert_eq!(treachery_of_whales::part_one("1,3"), Some(2));
    assert_eq!(treachery_of_whales::part_two("0,100000"), None);
}
