use aoc2023::almanac::{
    almanac_rules, locate, lowest_location, lowest_location_of_ranges, lowest_seed_location,
    remap_stage, run_stages, seed_intervals, split_working_set, AlmanacMap, FromTo,
};
use aoc2023::interval::{shift_pieces, Interval, RemapError};

fn example_maps() -> Vec<AlmanacMap> {
    let tables: Vec<Vec<(i64, i64, i64)>> = vec![
        vec![(50, 98, 2), (52, 50, 48)],
        vec![(0, 15, 37), (37, 52, 2), (39, 0, 15)],
        vec![(49, 53, 8), (0, 11, 42), (42, 0, 7), (57, 7, 4)],
        vec![(88, 18, 7), (18, 25, 70)],
        vec![(45, 77, 23), (81, 45, 19), (68, 64, 13)],
        vec![(0, 69, 1), (1, 0, 69)],
        vec![(60, 56, 37), (56, 93, 4)],
    ];
    tables.into_iter().map(|mappings| AlmanacMap { mappings }).collect()
}

fn iv(start: i64, end: i64) -> Interval {
    Interval::new(start..end).unwrap()
}

fn bounds(v: &[Interval]) -> Vec<(i64, i64)> {
    let mut b: Vec<(i64, i64)> = v.iter().map(|i| (i.start(), i.end())).collect();
    b.sort();
    b
}

#[test]
fn interval_test() -> Result<(), RemapError> {
    let interval = Interval::new(1972667147..2203381571)?;
    assert_eq!(
        interval.overlaps_left_of(&Interval::new(2032673361..2203381571)?),
        true
    );
    Ok(())
}

#[test]
fn numbers_test() -> Result<(), RemapError> {
    assert_eq!(2378259165u32, 1972667147 + 405592018);
    assert_eq!(1477976316u32, 1450194064 + 27782252);
    assert_eq!(410212617u32, 348350443 + 61862174);
    assert_eq!(4092364215u32, 3911195009 + 181169206);
    assert_eq!(765648080u32, 626861593 + 138786487);
    assert_eq!(3162265119u32, 2886966111 + 275299008);
    assert_eq!(1303406955u32, 825403564 + 478003391);
    assert_eq!(520687690u32, 514585599 + 6102091);
    assert_eq!(2541511753u32, 2526020300 + 15491453);
    assert_eq!(3757205391u32, 3211013652 + 546191739);
    let seeds = seed_intervals(&vec![(1972667147, 405592018), (3211013652, 546191739)])?;
    assert_eq!(seeds[0].end(), 2378259165);
    assert_eq!(seeds[1].end(), 3757205391);
    Ok(())
}

#[test]
fn day05_test_part1_ex() -> Result<(), RemapError> {
    assert_eq!(lowest_seed_location(&vec![79, 14, 55, 13], &example_maps())?, 35);
    Ok(())
}

#[test]
fn day05_test_part2_ex() -> Result<(), RemapError> {
    assert_eq!(lowest_location_of_ranges(&vec![(79, 14), (55, 13)], &example_maps())?, 46);
    Ok(())
}

#[test]
fn scenario_example_table_reaches_46() {
    let seeds = vec![iv(79, 93), iv(55, 68)];
    let stages = almanac_rules(&example_maps()).unwrap();
    assert_eq!(lowest_location(&seeds, &stages), Ok(46));
}

#[test]
fn contained_seed_moves_whole() {
    let rules = vec![(iv(10, 100), 5)];
    let out = remap_stage(&vec![iv(20, 30)], &rules).unwrap();
    assert_eq!(bounds(&out), vec![(25, 35)]);
}

#[test]
fn seed_over_two_abutting_rules_splits_in_two() {
    let rules = vec![(iv(0, 10), 100), (iv(10, 20), -5)];
    let out = remap_stage(&vec![iv(5, 15)], &rules).unwrap();
    assert_eq!(bounds(&out), vec![(5, 10), (105, 110)]);
    let total: i64 = out.iter().map(|i| i.end() - i.start()).sum();
    assert_eq!(total, 10);
}

#[test]
fn seed_ending_at_rule_start_is_not_split() {
    let rules = vec![(iv(10, 20), 7)];
    let out = iv(0, 10).split_on_ranges(&rules).unwrap();
    assert_eq!(bounds(&out), vec![(0, 10)]);
    assert!(!iv(0, 10).overlaps_left_of(&iv(10, 20)));
}

#[test]
fn no_op_stage_keeps_working_set() {
    let ws = vec![iv(0, 5), iv(30, 40)];
    let rules = vec![(iv(5, 30), 3), (iv(40, 50), -1)];
    let out = remap_stage(&ws, &rules).unwrap();
    assert_eq!(out, ws);
}

#[test]
fn split_preserves_values_and_keeps_pieces_apart() {
    let ws = vec![iv(0, 20), iv(25, 40)];
    let rules = vec![(iv(5, 10), 1), (iv(15, 30), 2), (iv(35, 36), 3)];
    let pieces = split_working_set(&ws, &rules);
    assert_eq!(
        bounds(&pieces),
        vec![(0, 5), (5, 10), (10, 15), (15, 20), (25, 30), (30, 35), (35, 36), (36, 40)]
    );
    for v in -5..45 {
        let before = ws.iter().filter(|i| i.contains(v)).count();
        let after = pieces.iter().filter(|i| i.contains(v)).count();
        assert_eq!(before, after);
    }
}

#[test]
fn shifting_twice_adds_offsets() {
    let t = iv(10, 20);
    let twice = t.offset_by(&7).unwrap().offset_by(&-3).unwrap();
    assert_eq!(twice, t.offset_by(&4).unwrap());
    assert_eq!(iv(0, 1).offset_by(&i64::MAX), Err(RemapError::Overflow));
}

#[test]
fn relation_cases_are_exclusive() {
    let a = iv(0, 10);
    let cases = [iv(0, 10), iv(5, 15), iv(-5, 5), iv(2, 4), iv(20, 30), iv(-5, 20)];
    for b in cases.iter() {
        let inside = a.is_contained(b);
        let left = a.overlaps_left_of(b);
        let right = a.overlaps_right_of(b);
        let both = a.overlaps_both_sides_of(b);
        let apart = a.end() <= b.start() || b.end() <= a.start();
        let n = [inside, left, right, both, apart].iter().filter(|x| **x).count();
        assert_eq!(n, 1);
    }
}

#[test]
fn malformed_interval_is_refused() {
    assert_eq!(Interval::new(5..5), Err(RemapError::MalformedInterval));
    assert_eq!(Interval::new(6..5), Err(RemapError::MalformedInterval));
    assert_eq!(seed_intervals(&vec![(1, 0)]), Err(RemapError::MalformedInterval));
    let bad = AlmanacMap { mappings: vec![(1, 2, 0)] };
    assert_eq!(bad.rules(), Err(RemapError::MalformedInterval));
}

#[test]
fn overflow_is_reported() {
    let m = AlmanacMap { mappings: vec![(i64::MAX - 1, 0, 10)] };
    assert_eq!(m.rules(), Err(RemapError::Overflow));
    let m = AlmanacMap { mappings: vec![(i64::MAX - 5, 0, 5)] };
    assert_eq!(m.transform(4), Ok(i64::MAX - 1));
    let rules = vec![(iv(0, 10), i64::MAX - 5)];
    assert_eq!(remap_stage(&vec![iv(0, 10)], &rules), Err(RemapError::Overflow));
}

#[test]
fn empty_seeds_have_no_minimum() {
    assert_eq!(lowest_location(&vec![], &vec![]), Err(RemapError::NoIntervals));
    assert_eq!(lowest_seed_location(&vec![], &example_maps()), Err(RemapError::NoIntervals));
}

#[test]
fn point_transform_uses_half_open_sources() {
    let m = AlmanacMap { mappings: vec![(50, 98, 2), (52, 50, 48)] };
    assert_eq!(m.transform(79), Ok(81));
    assert_eq!(m.transform(98), Ok(50));
    assert_eq!(m.transform(99), Ok(51));
    assert_eq!(m.transform(100), Ok(100));
    assert_eq!(locate(79, &example_maps()), Ok(82));
}

#[test]
fn fromtos_and_offsets() {
    let m = AlmanacMap { mappings: vec![(50, 98, 2)] };
    let f: Vec<FromTo> = m.mappings_as_fromtos().unwrap();
    assert_eq!((f[0].from.start(), f[0].from.end()), (98, 100));
    assert_eq!((f[0].to.start(), f[0].to.end()), (50, 52));
    assert_eq!(f[0].offset(), -48);
    let out = m.transform_interval(&iv(95, 105)).unwrap();
    assert_eq!(bounds(&out), vec![(50, 52), (95, 98), (100, 105)]);
}

#[test]
fn pieces_move_by_their_rule() {
    let rules = vec![(iv(0, 10), 3)];
    let out = shift_pieces(&vec![iv(0, 5), iv(10, 12)], &rules).unwrap();
    assert_eq!(bounds(&out), vec![(3, 8), (10, 12)]);
    let chained = run_stages(&vec![iv(0, 5)], &vec![rules.clone(), rules]).unwrap();
    assert_eq!(bounds(&chained), vec![(6, 11)]);
}
