//! The published example inputs for the first six days.

const DAY1_INPUT: &str = "1000
2000
3000

4000

5000
6000

7000
8000
9000

10000";

#[test]
fn day1_test_first() {
    let problem = advent::day1::Problem {};
    let input = problem.parse_input(DAY1_INPUT.as_bytes()).unwrap();
    assert_eq!(problem.solve_first(&input), 24000);
}

#[test]
fn day1_test_second() {
    let problem = advent::day1::Problem {};
    let input = problem.parse_input(DAY1_INPUT.as_bytes()).unwrap();
    assert_eq!(problem.solve_second(&input), 45000);
}

const DAY2_INPUT: &str = "A Y
B X
C Z";

#[test]
fn day2_test_first() {
    let problem = advent::day2::Problem {};
    let input = problem.parse_input(DAY2_INPUT.as_bytes()).unwrap();
    assert_eq!(problem.solve_first(&input), 15);
}

#[test]
fn day2_test_second() {
    let problem = advent::day2::Problem {};
    let input = problem.parse_input(DAY2_INPUT.as_bytes()).unwrap();
    assert_eq!(problem.solve_second(&input), 12);
}

#[test]
fn day3_test_first() {
    let raw_input = "";
    let problem = advent::day3::Problem {};
    let input = problem.parse_input(raw_input.as_bytes());
    assert_eq!(problem.solve_first(&input), 0);
}

#[test]
fn day3_test_second() {
    let raw_input = "";
    let problem = advent::day3::Problem {};
    let input = problem.parse_input(raw_input.as_bytes());
    assert_eq!(problem.solve_second(&input), 0);
}

const DAY4_INPUT: &str = "2-4,6-8
2-3,4-5
5-7,7-9
2-8,3-7
6-6,4-6
2-6,4-8";

#[test]
fn day4_test_first() {
    let problem = advent::day4::Problem {};
    let input = problem.parse_input(DAY4_INPUT.as_bytes()).unwrap();
    assert_eq!(problem.solve_first(&input), 2);
}

#[test]
fn day4_test_second() {
    let problem = advent::day4::Problem {};
    let input = problem.parse_input(DAY4_INPUT.as_bytes()).unwrap();
    assert_eq!(problem.solve_second(&input), 4);
}

const DAY5_INPUT: &str = "ZN
MCD
P

move 1 from 2 to 1
move 3 from 1 to 3
move 2 from 2 to 1
move 1 from 1 to 2";

#[test]
fn day5_test_first() {
    let problem = advent::day5::Problem {};
    let input = problem.parse_input(DAY5_INPUT.as_bytes()).unwrap();
    assert_eq!(problem.solve_first(&input).unwrap(), "CMZ");
}

#[test]
fn day5_test_second() {
    let problem = advent::day5::Problem {};
    let input = problem.parse_input(DAY5_INPUT.as_bytes()).unwrap();
    assert_eq!(problem.solve_second(&input).unwrap(), "MCD");
}

const DAY6_INPUT: &str = "bvwbjplbgvbhsrlpgdmjqwftvncz";

#[test]
fn day6_test_first() {
    let problem = advent::day6::Problem {};
    let input = problem.parse_input(DAY6_INPUT.as_bytes());
    assert_eq!(problem.solve_first(&input), 5);
}

#[test]
fn day6_test_second() {
    let problem = advent::day6::Problem {};
    let input = problem.parse_input(DAY6_INPUT.as_bytes());
    assert_eq!(problem.solve_second(&input), 23);
}
