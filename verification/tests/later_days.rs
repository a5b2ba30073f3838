//! The published example inputs for the later days and the template.

const DAY7_INPUT: &str = "$ cd /
$ ls
dir a
14848514 b.txt
8504156 c.dat
dir d
$ cd a
$ ls
dir e
29116 f
2557 g
62596 h.lst
$ cd e
$ ls
584 i
$ cd ..
$ cd ..
$ cd d
$ ls
4060174 j
8033020 d.log
5626152 d.ext
7214296 k
";

#[test]
fn day7_test_first() {
    let problem = advent::day7::Problem {};
    let input = problem.parse_input(DAY7_INPUT.as_bytes()).unwrap();
    assert_eq!(problem.solve_first(&input), 95437);
}

#[test]
fn day7_test_second() {
    let problem = advent::day7::Problem {};
    let input = problem.parse_input(DAY7_INPUT.as_bytes()).unwrap();
    assert_eq!(problem.solve_second(&input), 24933642);
}

const DAY8_INPUT: &str = "30373
25512
65332
33549
35390
";

#[test]
fn day8_test_first() {
    let problem = advent::day8::Problem {};
    let input = problem.parse_input(DAY8_INPUT.as_bytes()).unwrap();
    assert_eq!(problem.solve_first(&input), 21);
}

#[test]
fn day8_test_second() {
    let problem = advent::day8::Problem {};
    let input = problem.parse_input(DAY8_INPUT.as_bytes()).unwrap();
    assert_eq!(problem.solve_second(&input), 8);
}

const DAY9_INPUT: &str = "R 4
U 4
L 3
D 1
R 4
D 1
L 5
R 2";

#[test]
fn day9_test_first() {
    let problem = advent::day9::Problem {};
    let input = problem.parse_input(DAY9_INPUT.as_bytes()).unwrap();
    assert_eq!(problem.solve_first(&input), 13);
}

const DAY9_LARGER_INPUT: &str = "R 5
U 8
L 8
D 3
R 17
D 10
L 25
U 20";

#[test]
fn day9_test_second() {
    let problem = advent::day9::Problem {};
    let input = problem.parse_input(DAY9_LARGER_INPUT.as_bytes()).unwrap();
    assert_eq!(problem.solve_second(&input), 36);
}

const DAY10_INPUT: &str = "addx 15
addx -11
addx 6
addx -3
addx 5
addx -1
addx -8
addx 13
addx 4
noop
addx -1
addx 5
addx -1
addx 5
addx -1
addx 5
addx -1
addx 5
addx -1
addx -35
addx 1
addx 24
addx -19
addx 1
addx 16
addx -11
noop
noop
addx 21
addx -15
noop
noop
addx -3
addx 9
addx 1
addx -3
addx 8
addx 1
addx 5
noop
noop
noop
noop
noop
addx -36
noop
addx 1
addx 7
noop
noop
noop
addx 2
addx 6
noop
noop
noop
noop
noop
addx 1
noop
noop
addx 7
addx 1
noop
addx -13
addx 13
addx 7
noop
addx 1
addx -33
noop
noop
noop
addx 2
noop
noop
noop
addx 8
noop
addx -1
addx 2
addx 1
noop
addx 17
addx -9
addx 1
addx 1
addx -3
addx 11
noop
noop
addx 1
noop
addx 1
noop
noop
addx -13
addx -19
addx 1
addx 3
addx 26
addx -30
addx 12
addx -1
addx 3
addx 1
noop
noop
noop
addx -9
addx 18
addx 1
addx 2
noop
noop
addx 9
noop
noop
noop
addx -1
addx 2
addx -37
addx 1
addx 3
noop
addx 15
addx -21
addx 22
addx -6
addx 1
noop
addx 2
addx 1
noop
addx -10
noop
noop
addx 20
addx 1
addx 2
addx 2
addx -6
addx -11
noop
noop
noop";

#[test]
fn day10_test_first() {
    let problem = advent::day10::Problem {};
    let input = problem.parse_input(DAY10_INPUT.as_bytes()).unwrap();
    assert_eq!(problem.solve_first(&input), 13140);
}

#[test]
fn day10_test_second() {
    let problem = advent::day10::Problem {};
    let input = problem.parse_input(DAY10_INPUT.as_bytes()).unwrap();
    assert_eq!(
        problem.solve_second(&input),
        "##..##..##..##..##..##..##..##..##..##..
###...###...###...###...###...###...###.
####....####....####....####....####....
#####.....#####.....#####.....#####.....
######......######......######......####
#######.......#######.......#######....."
    );
}

const DAY11_INPUT: &str = "Monkey 0:
  Starting items: 79, 98
  Operation: new = old * 19
  Test: divisible by 23
    If true: throw to monkey 2
    If false: throw to monkey 3

Monkey 1:
  Starting items: 54, 65, 75, 74
  Operation: new = old + 6
  Test: divisible by 19
    If true: throw to monkey 2
    If false: throw to monkey 0

Monkey 2:
  Starting items: 79, 60, 97
  Operation: new = old * old
  Test: divisible by 13
    If true: throw to monkey 1
    If false: throw to monkey 3

Monkey 3:
  Starting items: 74
  Operation: new = old + 3
  Test: divisible by 17
    If true: throw to monkey 0
    If false: throw to monkey 1
";

#[test]
fn day11_test_first() {
    let problem = advent::day11::Problem {};
    let input = problem.parse_input(DAY11_INPUT.as_bytes()).unwrap();
    assert_eq!(problem.solve_first(&input).unwrap(), 10605);
}

#[test]
fn day11_test_second() {
    let problem = advent::day11::Problem {};
    let input = problem.parse_input(DAY11_INPUT.as_bytes()).unwrap();
    assert_eq!(problem.solve_second(&input).unwrap(), 2713310158);
}

#[test]
fn template_test_first() {
    let raw_input = "";
    let problem = advent::template::Problem {};
    let input = problem.parse_input(raw_input.as_bytes());
    assert_eq!(problem.solve_first(&input), 0);
}

#[test]
fn template_test_second() {
    let raw_input = "";
    let problem = advent::template::Problem {};
    let input = problem.parse_input(raw_input.as_bytes());
    assert_eq!(problem.solve_second(&input), 0);
}
