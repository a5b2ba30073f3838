//! Exact values of the small scoring and parsing functions, and the inputs
//! each parser rejects.

use advent::day9::Vec2D;

#[test]
fn day2_round_scores() {
    // opponent plays rock, second column Y
    let round = advent::day2::Round::from_str("A Y").unwrap();
    assert_eq!(round.score_pt1(), 8); // paper (2) beats rock (+6)
    assert_eq!(round.score_pt2(), 4); // draw (+3) holding rock (1)
    assert!(advent::day2::Round::from_str("D Y").is_none());
    assert!(advent::day2::Round::from_str("A").is_none());
    let problem = advent::day2::Problem {};
    assert!(problem.parse_input(b"A Y\nB ?").is_none());
}

#[test]
fn day2_shape_cycle() {
    assert!(advent::day2::Shape::Rock.lost_to() == advent::day2::Shape::Paper);
    assert!(advent::day2::Shape::Paper.lost_to() == advent::day2::Shape::Scissor);
    assert!(advent::day2::Shape::Scissor.beat() == advent::day2::Shape::Paper);
    assert!(advent::day2::Shape::Rock.beat() == advent::day2::Shape::Scissor);
}

#[test]
fn day3_priorities() {
    assert_eq!(advent::day3::char_to_priority('a'), 1);
    assert_eq!(advent::day3::char_to_priority('z'), 26);
    assert_eq!(advent::day3::char_to_priority('A'), 27);
    assert_eq!(advent::day3::char_to_priority('Z'), 52);
    // the published first rucksack: `p` appears in both halves
    assert_eq!(advent::day3::get_common_item_priorities("vJrwpWtwJgWrhcsFMMfFFhFp"), 16);
}

#[test]
fn day3_group_badges() {
    let problem = advent::day3::Problem {};
    let input = problem.parse_input(
        b"vJrwpWtwJgWrhcsFMMfFFhFp\njqHRNqRjqzjGDLGLrsFMfFZSrLrFZsSL\nPmmdzqPrVvPwwTWBwg",
    );
    // the badge of the published first group is `r`, priority 18
    assert_eq!(problem.solve_second(&input), 18);
}

#[test]
fn day4_span_relations() {
    let a = advent::day4::Span { start: 2, end: 8 };
    let b = advent::day4::Span { start: 3, end: 7 };
    let c = advent::day4::Span { start: 6, end: 9 };
    assert!(advent::day4::contains(&a, &b));
    assert!(!advent::day4::contains(&b, &a));
    assert!(advent::day4::overlaps(&a, &c));
    assert!(!advent::day4::overlaps(&b, &advent::day4::Span { start: 8, end: 9 }));
    let problem = advent::day4::Problem {};
    assert!(problem.parse_input(b"2-4,six-8").is_none());
    assert!(problem.parse_input(b"2,3").is_none());
}

#[test]
fn day5_impossible_moves() {
    let problem = advent::day5::Problem {};
    // moving from a stack that does not exist
    let input = problem.parse_input(b"AB\n\nmove 1 from 5 to 1").unwrap();
    assert_eq!(problem.solve_first(&input), None);
    // moving more crates than the stack holds
    let input2 = problem.parse_input(b"AB\nC\n\nmove 3 from 1 to 2").unwrap();
    assert_eq!(problem.solve_second(&input2), None);
    // a zero stack number cannot be shifted to zero-based form
    assert!(problem.parse_input(b"AB\n\nmove 1 from 0 to 1").is_none());
}

#[test]
fn day6_no_marker() {
    let problem = advent::day6::Problem {};
    // every window has a duplicate, so the count covers all windows
    let input = problem.parse_input(b"aaaaa");
    assert_eq!(problem.solve_first(&input), 6);
    // too short for any window
    let short = problem.parse_input(b"ab");
    assert_eq!(problem.solve_first(&short), 4);
}

#[test]
fn day7_rejects_unknown_child() {
    let problem = advent::day7::Problem {};
    assert!(problem.parse_input(b"$ cd /\n$ cd nowhere").is_none());
    assert!(problem.parse_input(b"$ cd /\nnotasize x.txt").is_none());
    assert!(problem.parse_input(b"$ cd /\n\n$ ls").is_none());
}

#[test]
fn day7_sizes_by_hand() {
    let problem = advent::day7::Problem {};
    let input = problem.parse_input(b"$ cd /\n$ ls\n100 a\ndir d\n$ cd d\n$ ls\n50 b").unwrap();
    assert_eq!(input.size(), 150);
    assert_eq!(input.dir_size(1), 50);
    // both directories are small enough to count
    assert_eq!(problem.solve_first(&input), 200);
}

#[test]
fn day8_rejects_bad_grids() {
    let problem = advent::day8::Problem {};
    assert!(problem.parse_input(b"123\n4x6\n789").is_none());
    assert!(problem.parse_input(b"123\n45\n789").is_none());
    assert!(problem.parse_input(b"").is_none());
}

#[test]
fn day9_follow_steps() {
    // touching: stays put
    let t = Vec2D { x: 1, y: 1 };
    let h = Vec2D { x: 2, y: 2 };
    assert!(t.follow(&h) == t);
    // two apart in a row: steps straight
    let h2 = Vec2D { x: 3, y: 1 };
    assert!(t.follow(&h2) == Vec2D { x: 2, y: 1 });
    // a knight's move away: steps diagonally
    let h3 = Vec2D { x: 2, y: 3 };
    assert!(t.follow(&h3) == Vec2D { x: 2, y: 2 });
    let problem = advent::day9::Problem {};
    assert!(problem.parse_input(b"R four").is_none());
    assert!(problem.parse_input(b"Q 4").is_none());
}

#[test]
fn day10_op_parsing() {
    assert!(matches!(advent::day10::Op::from_str("noop"), Some(advent::day10::Op::Noop)));
    assert!(matches!(advent::day10::Op::from_str("addx -11"), Some(advent::day10::Op::Add(-11))));
    assert!(advent::day10::Op::from_str("addx").is_none());
    assert!(advent::day10::Op::from_str("jump 3").is_none());
    let noop = advent::day10::Op::Noop;
    assert_eq!(noop.cycles(), 1);
    assert_eq!(advent::day10::Op::Add(3).cycles(), 2);
    assert_eq!(advent::day10::Op::Add(-3).operate(10), 7);
}

#[test]
fn day1_skips_unreadable_lines() {
    let problem = advent::day1::Problem {};
    // the middle block sums only its readable lines
    let input = problem.parse_input(b"10\n20\n\n5\nx\n7\n\n1").unwrap();
    assert_eq!(problem.solve_first(&input), 30);
    assert_eq!(problem.solve_second(&input), 43);
}
