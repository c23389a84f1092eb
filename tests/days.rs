use aoc2023::cubes::{sum_of_powers, sum_possible_games, Draw, Game};
use aoc2023::schematic::{PartNum, PartNumError};
use aoc2023::scratchcards::{card_points, Card, CardPile};
use std::collections::VecDeque;

fn game(num: i64, draws: &[(i64, i64, i64)]) -> Game {
    Game { num, draws: draws.iter().map(|&(red, green, blue)| Draw { red, green, blue }).collect() }
}

#[test]
fn test_part1_log() {
    assert_eq!(1, 2i64.pow(0));
    assert_eq!(2, 2i64.pow(1));
    assert_eq!(4, 2i64.pow(2));
    assert_eq!(card_points(1), Some(1));
    assert_eq!(card_points(2), Some(2));
    assert_eq!(card_points(3), Some(4));
}

#[test]
fn card_points_edges() {
    assert_eq!(card_points(0), Some(0));
    assert_eq!(card_points(63), Some(1 << 62));
    assert_eq!(card_points(64), None);
}

#[test]
fn games_possible_and_power() {
    let g1 = game(1, &[(4, 0, 3), (1, 2, 6), (0, 2, 0)]);
    let g3 = game(3, &[(20, 8, 6), (4, 13, 5), (1, 5, 0)]);
    assert!(g1.is_possible());
    assert!(!g3.is_possible());
    assert_eq!(g1.power(), 48);
    assert_eq!(g3.power(), 1560);
    let games = vec![g1, g3, game(5, &[(6, 3, 1), (1, 2, 2)])];
    assert_eq!(sum_possible_games(&games), Some(6));
    assert_eq!(sum_of_powers(&games), Some(48 + 1560 + 36));
    let huge = vec![game(1, &[(i64::MAX, 2, 1)])];
    assert_eq!(sum_of_powers(&huge), None);
}

fn card(num_card: i64, winning: &[i64], have: &[i64]) -> Card {
    Card { num_card, winning_numbers: winning.to_vec(), have_numbers: have.to_vec() }
}

#[test]
fn winning_numbers_count_distinct_values() {
    let c = card(1, &[41, 48, 83, 86, 17], &[83, 86, 6, 31, 17, 9, 48, 53]);
    assert_eq!(c.num_winning_numbers(), 4);
    let d = card(2, &[5, 5, 7], &[5, 5, 8]);
    assert_eq!(d.num_winning_numbers(), 1);
}

#[test]
fn eval_copies_into_following_piles() {
    let mut piles: VecDeque<CardPile> = VecDeque::new();
    for n in 1..=4 {
        piles.push_back(CardPile { cards: vec![card(n, &[1, 2], &[1, 2])] });
    }
    let first = card(1, &[1, 2], &[1, 2]);
    first.eval(&mut piles);
    let sizes: Vec<usize> = piles.iter().map(|p| p.cards.len()).collect();
    assert_eq!(sizes, vec![1, 2, 2, 1]);
    let last = card(4, &[1, 2], &[1, 2]);
    last.eval(&mut piles);
    let sizes: Vec<usize> = piles.iter().map(|p| p.cards.len()).collect();
    assert_eq!(sizes, vec![1, 2, 2, 1]);
}

#[test]
fn part_numbers_read_and_touch() {
    let hay = b"....467..\n...*.....".to_vec();
    let p = PartNum::new(&hay, 4, 10);
    assert_eq!(p.num(), Ok(467));
    assert_eq!(p.is_adjacent(13), Ok(true));
    assert_eq!(p.is_adjacent(9), Ok(false));
    assert_eq!(p.is_valid(), Ok(true));
    let q = PartNum::new(&hay, 0, 10);
    assert_eq!(q.num(), Err(PartNumError::NoDigits));
    assert_eq!(q.is_valid(), Ok(false));
    assert!(PartNum::is_symbol('*'));
    assert!(!PartNum::is_symbol('.'));
    assert!(!PartNum::is_symbol('7'));
    let big = b"99999999999999999999".to_vec();
    assert_eq!(PartNum::new(&big, 0, 10).num(), Err(PartNumError::TooLarge));
}
