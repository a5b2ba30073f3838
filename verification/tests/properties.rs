//! Behavioural checks of the monkey simulation on concrete troops:
//! determinism, run isolation, congruence of the modulo reduction,
//! counter conservation, and the degenerate-input boundaries.

use advent::day11::{Monkey, Problem, Strategy};

const INPUT: &str = "Monkey 0:
  Starting items: 79, 98
  Operation: new = old * 19
  Test: divisible by 23
    If true: throw to monkey 2
    If false: throw to monkey 3

Monkey 1:
  Starting items: 54, 65, 75, 74
  Operation: new = old + 6
  Test: divisible by 19
    If true: throw to monkey 2
    If false: throw to monkey 0

Monkey 2:
  Starting items: 79, 60, 97
  Operation: new = old * old
  Test: divisible by 13
    If true: throw to monkey 1
    If false: throw to monkey 3

Monkey 3:
  Starting items: 74
  Operation: new = old + 3
  Test: divisible by 17
    If true: throw to monkey 0
    If false: throw to monkey 1
";

#[test]
fn determinism_repeated_runs_agree() {
    let problem = Problem {};
    let input = problem.parse_input(INPUT.as_bytes()).unwrap();
    let first = problem.solve_first(&input);
    let again = problem.solve_first(&input);
    assert_eq!(first, again);
    let second = problem.solve_second(&input);
    let second_again = problem.solve_second(&input);
    assert_eq!(second, second_again);
}

#[test]
fn run_isolation_earlier_run_leaves_no_trace() {
    let problem = Problem {};
    let input = problem.parse_input(INPUT.as_bytes()).unwrap();
    let _ = problem.solve_first(&input);
    let after_a = problem.solve_second(&input);
    let fresh = problem.parse_input(INPUT.as_bytes()).unwrap();
    let alone = problem.solve_second(&fresh);
    assert_eq!(after_a, alone);
    assert_eq!(alone.unwrap(), 2713310158);
}

#[test]
fn congruence_larger_common_multiple_gives_same_counters() {
    // 96577 is the product of the divisors 23, 19, 13 and 17; any multiple
    // of it preserves every divisibility test, so the counters agree.
    let problem = Problem {};
    let input = problem.parse_input(INPUT.as_bytes()).unwrap();
    let exact = problem.solve_helper(&input, Strategy::Modulo(96577), 10000);
    let doubled = problem.solve_helper(&input, Strategy::Modulo(2 * 96577), 10000);
    assert_eq!(exact, doubled);
    assert_eq!(exact.unwrap(), 2713310158);
}

#[test]
fn counter_conservation_two_monkeys_pass_everything() {
    // Two items circulate between two monkeys and every round inspects both
    // items twice: after four rounds each monkey has counted 2 * 4
    // inspections, so the answer is 8 * 8.
    let problem = Problem {};
    let a = Monkey::new(vec![1, 1], advent::day11::Operation::Add(0), 1, 1, 1);
    let b = Monkey::new(vec![], advent::day11::Operation::Add(0), 1, 0, 0);
    let monkeys = vec![a, b];
    let r = problem.solve_helper(&monkeys, Strategy::DivThree, 4);
    assert_eq!(r.unwrap(), 64);
}

#[test]
fn boundary_idle_monkey_scores_zero() {
    // The third monkey never receives anything: it contributes a zero
    // counter and the run still completes.
    let problem = Problem {};
    let a = Monkey::new(vec![5, 7], advent::day11::Operation::Mul(1), 1, 1, 1);
    let b = Monkey::new(vec![], advent::day11::Operation::Mul(1), 1, 0, 0);
    let idle = Monkey::new(vec![], advent::day11::Operation::Mul(1), 1, 0, 0);
    let monkeys = vec![a, b, idle];
    // two items inspected per turn over three rounds: counters 6, 6 and 0
    let r = problem.solve_helper(&monkeys, Strategy::DivThree, 3);
    assert_eq!(r.unwrap(), 36);
}

#[test]
fn boundary_fewer_than_two_monkeys_fails_fast() {
    let problem = Problem {};
    let lone = Monkey::new(vec![1], advent::day11::Operation::Add(1), 2, 0, 0);
    assert_eq!(problem.solve_helper(&vec![lone], Strategy::DivThree, 20), None);
    assert_eq!(problem.solve_helper(&vec![], Strategy::DivThree, 20), None);
}

#[test]
fn malformed_input_is_rejected() {
    let problem = Problem {};
    assert!(problem.parse_input(b"Monkey 0:\n  nonsense").is_none());
    let bad_op = "Monkey 0:
  Starting items: 1
  Operation: new = old % 3
  Test: divisible by 5
    If true: throw to monkey 0
    If false: throw to monkey 0";
    assert!(problem.parse_input(bad_op.as_bytes()).is_none());
}

#[test]
fn invalid_routing_or_divisor_gives_no_answer() {
    let problem = Problem {};
    // a routing target outside the troop
    let a = Monkey::new(vec![1], advent::day11::Operation::Add(1), 2, 5, 0);
    let b = Monkey::new(vec![1], advent::day11::Operation::Add(1), 2, 0, 1);
    assert_eq!(problem.solve_helper(&vec![a, b], Strategy::DivThree, 5), None);
    // a zero divisor
    let c = Monkey::new(vec![1], advent::day11::Operation::Add(1), 0, 0, 1);
    let d = Monkey::new(vec![1], advent::day11::Operation::Add(1), 2, 0, 1);
    assert_eq!(problem.solve_helper(&vec![c, d], Strategy::DivThree, 5), None);
    // a zero modulus
    let e = Monkey::new(vec![1], advent::day11::Operation::Add(1), 2, 0, 1);
    let f = Monkey::new(vec![1], advent::day11::Operation::Add(1), 2, 0, 1);
    assert_eq!(problem.solve_helper(&vec![e, f], Strategy::Modulo(0), 5), None);
}

#[test]
fn single_monkey_parts() {
    // one block parsed on its own
    let block = "Monkey 0:
  Starting items: 10, 20
  Operation: new = old * 19
  Test: divisible by 23
    If true: throw to monkey 2
    If false: throw to monkey 3";
    assert!(Monkey::from_str(block).is_some());
    assert!(Monkey::from_str("Monkey 0:").is_none());
}

#[test]
fn operation_arithmetic_matches() {
    assert_eq!(advent::day11::Operation::Add(6).operate(10), 16);
    assert_eq!(advent::day11::Operation::Mul(19).operate(10), 190);
    assert_eq!(advent::day11::Operation::Square.operate(12), 144);
}
