use aoc2023::calibration::{calibration_sum, digit_scale, join_numbers, line_digits};
use aoc2023::camel_cards::{parse, partial_cmp, total_winnings, Hand};
use aoc2023::cubes::{sum_of_powers, sum_possible_games, Draw, Game};
use aoc2023::network::{
    ghost_steps, parse_file_contents, parse_instructions, parse_node, steps_to_zzz, WalkError,
};
use aoc2023::oasis::{sum_of_predictions, Pyramid};
use aoc2023::pipes::Pipe;
use aoc2023::races::{product_of_wins, Race};
use aoc2023::schematic::{gear_ratio_sum, pad_schematic, part_numbers, sum_valid_parts};
use aoc2023::scratchcards::{pile_points, total_scratchcards, Card};
use aoc2023::tokens::numbers_in;
use std::cmp::Ordering;

fn lines(text: &str) -> Vec<Vec<u8>> {
    text.split('\n').map(|l| l.as_bytes().to_vec()).collect()
}

#[test]
fn test_log() {
    let a = 3i64;
    let b = 17i64;
    let c = 10i64.pow(b.ilog10() + 1);
    assert_eq!(c, 100);
    assert_eq!(c * a + b, 317);
    assert_eq!(digit_scale(b), Some(100));
    assert_eq!(join_numbers(a, b), Some(317));
}

#[test]
fn join_numbers_edges() {
    assert_eq!(digit_scale(0), Some(10));
    assert_eq!(digit_scale(9), Some(10));
    assert_eq!(digit_scale(999_999_999_999_999_999), Some(1_000_000_000_000_000_000));
    assert_eq!(digit_scale(1_000_000_000_000_000_000), None);
    assert_eq!(join_numbers(0, 1_000_000_000_000_000_000), Some(1_000_000_000_000_000_000));
    assert_eq!(join_numbers(1, 1_000_000_000_000_000_000), None);
}

#[test]
fn day01_test_part1_ex() {
    let text = "1abc2\npqr3stu8vwx\na1b2c3d4e5f\ntreb7uchet\n";
    assert_eq!(calibration_sum(&lines(text), false), Some(142));
}

#[test]
fn day01_test_part2_ex() {
    let text = "two1nine\neightwothree\nabcone2threexyz\nxtwone3four\n4nineeightseven2\nzoneight234\n7pqrstsixteen\n";
    assert_eq!(calibration_sum(&lines(text), true), Some(281));
}

#[test]
fn spelled_digits_may_overlap() {
    assert_eq!(line_digits(b"xtwone3four", true), vec![2, 1, 3, 4]);
    assert_eq!(line_digits(b"xtwone3four", false), vec![3]);
    assert_eq!(line_digits(b"oneight", true), vec![1, 8]);
}

fn game(num: i64, draws: &[(i64, i64, i64)]) -> Game {
    Game { num, draws: draws.iter().map(|&(red, green, blue)| Draw { red, green, blue }).collect() }
}

fn example_games() -> Vec<Game> {
    vec![
        game(1, &[(4, 0, 3), (1, 2, 6), (0, 2, 0)]),
        game(2, &[(0, 2, 1), (1, 3, 4), (0, 1, 1)]),
        game(3, &[(20, 8, 6), (4, 13, 5), (1, 5, 0)]),
        game(4, &[(3, 1, 6), (6, 3, 0), (14, 3, 15)]),
        game(5, &[(6, 3, 1), (1, 2, 2)]),
    ]
}

#[test]
fn day02_test_part1_ex() {
    assert_eq!(sum_possible_games(&example_games()), Some(8));
}

#[test]
fn day02_test_part2_ex() {
    assert_eq!(sum_of_powers(&example_games()), Some(2286));
}

const SCHEMATIC: &str = "467..114..\n...*......\n..35..633.\n......#...\n617*......\n.....+.58.\n..592.....\n......755.\n...$.*....\n.664.598..\n";

#[test]
fn day03_test_part1_ex() {
    let (hay, width) = pad_schematic(SCHEMATIC.as_bytes()).unwrap();
    assert_eq!(width, 12);
    let parts = part_numbers(&hay, width);
    assert_eq!(parts.len(), 10);
    assert_eq!(sum_valid_parts(&parts), Ok(4361));
}

#[test]
fn day03_test_part2_ex() {
    let (hay, width) = pad_schematic(SCHEMATIC.as_bytes()).unwrap();
    let parts = part_numbers(&hay, width);
    assert_eq!(gear_ratio_sum(&hay, &parts), Ok(467835));
}

#[test]
fn padding_frames_the_rows() {
    let (hay, width) = pad_schematic(b"1.\n.*\n").unwrap();
    assert_eq!(width, 4);
    assert_eq!(hay, b".....1....*.....".to_vec());
    assert!(pad_schematic(b"no break").is_none());
}

fn example_cards() -> Vec<Card> {
    let rows: [(&str, &str); 6] = [
        ("41 48 83 86 17", "83 86  6 31 17  9 48 53"),
        ("13 32 20 16 61", "61 30 68 82 17 32 24 19"),
        (" 1 21 53 59 44", "69 82 63 72 16 21 14  1"),
        ("41 92 73 84 69", "59 84 76 51 58  5 54 83"),
        ("87 83 26 28 32", "88 30 70 12 93 22 82 36"),
        ("31 18 13 56 72", "74 77 10 23 35 67 36 11"),
    ];
    rows.iter()
        .enumerate()
        .map(|(i, (w, h))| Card {
            num_card: i as i64 + 1,
            winning_numbers: numbers_in(w.as_bytes()).unwrap(),
            have_numbers: numbers_in(h.as_bytes()).unwrap(),
        })
        .collect()
}

#[test]
fn day04_test_part1_ex() {
    assert_eq!(pile_points(&example_cards()), Some(13));
}

#[test]
fn day04_test_part2_ex() {
    assert_eq!(total_scratchcards(&example_cards()), Some(30));
}

#[test]
fn day06_test_part1_ex() {
    let races = vec![
        Race { time: 7, distance: 9 },
        Race { time: 15, distance: 40 },
        Race { time: 30, distance: 200 },
    ];
    assert_eq!(races[0].ways_to_win(), 4);
    assert_eq!(product_of_wins(&races), Some(288));
}

#[test]
fn day06_test_part2_ex() {
    let races = vec![Race { time: 71530, distance: 940200 }];
    assert_eq!(product_of_wins(&races), Some(71503));
}

#[test]
fn races_without_a_win_give_zero() {
    let races = vec![Race { time: 1, distance: 0 }, Race { time: 3, distance: 100 }];
    assert_eq!(product_of_wins(&races), Some(0));
}

fn hand(text: &str) -> Hand {
    let v: Vec<i64> = text.chars().map(|c| parse(c).unwrap()).collect();
    let mut h = Hand { cards: (v[0], v[1], v[2], v[3], v[4]), orig_cards: None };
    h.sort();
    h
}

#[test]
fn hands_rank_by_kind_then_dealt_order() {
    assert_eq!(parse('A'), Some(14));
    assert_eq!(parse('J'), Some(1));
    assert_eq!(parse('7'), Some(7));
    assert_eq!(parse('x'), None);
    assert_eq!(hand("AAAAA").hand_type(), 6);
    assert_eq!(hand("AA8AA").hand_type(), 5);
    assert_eq!(hand("23332").hand_type(), 4);
    assert_eq!(hand("TTT98").hand_type(), 3);
    assert_eq!(hand("23432").hand_type(), 2);
    assert_eq!(hand("A23A4").hand_type(), 1);
    assert_eq!(hand("23456").hand_type(), 0);
    let h = hand("KTJJT");
    assert_eq!(h.cards, (1, 1, 10, 10, 13));
    assert_eq!(h.orig_cards, Some((13, 10, 1, 1, 10)));
    assert_eq!(hand("KK677").partial_cmp(&hand("KTJJT")), Some(Ordering::Greater));
    assert_eq!(partial_cmp([13, 13, 6, 7, 7], [13, 13, 6, 7, 7]), Some(Ordering::Equal));
    assert_eq!(partial_cmp([13, 13, 6, 7, 7], [13, 10, 11, 11, 10]), Some(Ordering::Greater));
    assert_eq!(partial_cmp([13, 1, 11, 11, 10], [13, 13, 6, 7, 7]), Some(Ordering::Less));
}

#[test]
fn winnings_of_the_example_hands() {
    let hands = vec![
        (hand("32T3K"), 765),
        (hand("T55J5"), 684),
        (hand("KK677"), 28),
        (hand("KTJJT"), 220),
        (hand("QQQJA"), 483),
    ];
    assert_eq!(total_winnings(&hands), Some(6440));
    let unsorted = vec![(Hand { cards: (2, 2, 2, 2, 2), orig_cards: None }, 1); 2];
    assert_eq!(total_winnings(&unsorted), None);
}

const NETWORK_EX: &str = "RL\n\nAAA = (BBB, CCC)\nBBB = (DDD, EEE)\nCCC = (ZZZ, GGG)\nDDD = (DDD, DDD)\nEEE = (EEE, EEE)\nGGG = (GGG, GGG)\nZZZ = (ZZZ, ZZZ)\n";

#[test]
fn day08_test_part1_ex() {
    let (ins, nodes) = parse_file_contents(NETWORK_EX.as_bytes()).unwrap();
    assert_eq!(nodes.len(), 7);
    assert_eq!(steps_to_zzz(&ins, &nodes, 8), Ok(2));
}

#[test]
fn test_part1_ex2() {
    let text = "LLR\n\nAAA = (BBB, BBB)\nBBB = (AAA, ZZZ)\nZZZ = (ZZZ, ZZZ)\n";
    let (ins, nodes) = parse_file_contents(text.as_bytes()).unwrap();
    assert_eq!(steps_to_zzz(&ins, &nodes, 4), Ok(6));
}

#[test]
fn network_parsing_and_errors() {
    let (ins, at) = parse_instructions(b"LR\n\n").unwrap();
    assert_eq!((ins.0, at), (b"LR".to_vec(), 2));
    let (node, end) = parse_node(b"AAA = (BBB, CCC)", 0).unwrap();
    assert_eq!((node.id, node.left, node.right, end), (['A'; 3], ['B'; 3], ['C'; 3], 16));
    assert!(parse_node(b"AAA = BBB, CCC)", 0).is_none());
    let (ins, nodes) = parse_file_contents(b"L\n\nBBB = (BBB, BBB)").unwrap();
    assert_eq!(steps_to_zzz(&ins, &nodes, 3), Err(WalkError::NoStart));
    let (ins, nodes) = parse_file_contents(b"L\n\nAAA = (QQQ, BBB)").unwrap();
    assert_eq!(steps_to_zzz(&ins, &nodes, 3), Err(WalkError::MissingNode));
    let (ins, nodes) = parse_file_contents(b"X\n\nAAA = (AAA, AAA)").unwrap();
    assert_eq!(steps_to_zzz(&ins, &nodes, 3), Err(WalkError::UnknownInstruction));
    let (ins, nodes) = parse_file_contents(b"L\n\nAAA = (AAA, AAA)\nZZZ = (ZZZ, ZZZ)").unwrap();
    assert_eq!(steps_to_zzz(&ins, &nodes, 3), Err(WalkError::NotReached));
}

fn histories() -> Vec<Vec<i64>> {
    ["0 3 6 9 12 15", "1 3 6 10 15 21", "10 13 16 21 30 45"]
        .iter()
        .map(|l| numbers_in(l.as_bytes()).unwrap())
        .collect()
}

#[test]
fn day09_test_part1_ex() {
    assert_eq!(sum_of_predictions(&histories(), false), Some(114));
}

#[test]
fn day09_test_part2_ex() {
    assert_eq!(sum_of_predictions(&histories(), true), Some(2));
}

#[test]
fn pyramid_rows_and_extension() {
    let mut p = Pyramid::new(vec![0, 3, 6, 9, 12, 15]).unwrap();
    assert_eq!(p.data, vec![vec![0, 3, 6, 9, 12, 15], vec![3, 3, 3, 3, 3], vec![0, 0, 0, 0]]);
    assert_eq!(p.first_row(), &[0, 3, 6, 9, 12, 15]);
    p.extrapolate().unwrap();
    assert_eq!(p.extrapolated_value(), 18);
    let mut q = Pyramid::new(vec![10, 13, 16, 21, 30, 45]).unwrap();
    q.extrapolate_front().unwrap();
    assert_eq!(q.extrapolated_value_front(), 5);
    assert!(Pyramid::new(vec![i64::MIN, i64::MAX]).is_none());
}

#[test]
fn numbers_are_scanned_with_signs() {
    assert_eq!(numbers_in(b"Card 12: -3 45 x7"), Some(vec![12, -3, 45, 7]));
    assert_eq!(numbers_in(b"99999999999999999999"), None);
    assert_eq!(numbers_in(b"-9223372036854775808"), Some(vec![i64::MIN]));
    assert_eq!(numbers_in(b""), Some(vec![]));
}

#[test]
fn new_pipe_has_no_connections() {
    let p = Pipe::new(7);
    assert_eq!(p, Pipe { id: 7, left: None, right: None, up: None, down: None });
}

#[test]
fn day08_test_part2_ex() {
    let text = "LR\n\n11A = (11B, XXX)\n11B = (XXX, 11Z)\n11Z = (11B, XXX)\n22A = (22B, XXX)\n22B = (22C, 22C)\n22C = (22Z, 22Z)\n22Z = (22B, 22B)\nXXX = (XXX, XXX)\n";
    let (ins, nodes) = parse_file_contents(text.as_bytes()).unwrap();
    assert_eq!(ghost_steps(&ins, &nodes, 9), Ok(6));
}
