//! Rock-paper-scissors score sheet.
//!
//! Each input line names the opponent's shape (`A`, `B`, `C`) and a second
//! column (`X`, `Y`, `Z`). Under the first reading the second column is the
//! player's own shape; under the second it is the wanted outcome (lose,
//! draw, win). Either way a round scores the player's shape plus the outcome
//! (zero for a loss, three for a draw, six for a win), and the answer is the
//! sum over all rounds.

use crate::text::{lines_of, lines_spec, map_opt, lemma_map_opt, split_pat, split_pat_exec, views};
use vstd::prelude::*;
use vstd::string::StringSliceAdditionalSpecFns;

verus! {

pub struct Problem;

/// A hand shape.
#[derive(Clone, Copy, PartialEq, Eq, Structural)]
pub enum Shape {
    Rock,
    Paper,
    Scissor,
}

/// The second input column.
#[derive(Clone, Copy, PartialEq, Eq, Structural)]
pub enum Me {
    X,
    Y,
    Z,
}

/// One line of the sheet.
#[derive(Clone, Copy)]
pub struct Round {
    pub opponent: Shape,
    pub me: Me,
}

/// The score of a shape: one for rock, two for paper, three for scissors.
pub open spec fn shape_score(s: Shape) -> int {
    match s {
        Shape::Rock => 1,
        Shape::Paper => 2,
        Shape::Scissor => 3,
    }
}

/// The shape that wins against `s`.
pub open spec fn lost_to_spec(s: Shape) -> Shape {
    match s {
        Shape::Rock => Shape::Paper,
        Shape::Paper => Shape::Scissor,
        Shape::Scissor => Shape::Rock,
    }
}

/// The shape that loses against `s`.
pub open spec fn beat_spec(s: Shape) -> Shape {
    match s {
        Shape::Rock => Shape::Scissor,
        Shape::Paper => Shape::Rock,
        Shape::Scissor => Shape::Paper,
    }
}

/// The second column read as the player's own shape.
pub open spec fn me_as_shape(m: Me) -> Shape {
    match m {
        Me::X => Shape::Rock,
        Me::Y => Shape::Paper,
        Me::Z => Shape::Scissor,
    }
}

/// Outcome points for playing `mine` against `opp`.
pub open spec fn duel_score(mine: Shape, opp: Shape) -> int {
    if mine == opp {
        3
    } else if beat_spec(mine) == opp {
        6
    } else {
        0
    }
}

/// First reading: the second column is the player's shape.
pub open spec fn score_pt1_spec(r: Round) -> int {
    shape_score(me_as_shape(r.me)) + duel_score(me_as_shape(r.me), r.opponent)
}

/// Second reading: the second column is the wanted outcome.
pub open spec fn score_pt2_spec(r: Round) -> int {
    match r.me {
        Me::X => shape_score(beat_spec(r.opponent)) + 0,
        Me::Y => shape_score(r.opponent) + 3,
        Me::Z => shape_score(lost_to_spec(r.opponent)) + 6,
    }
}

/// One line: the opponent letter, a space, the second-column letter.
pub open spec fn parse_round_spec(line: Seq<u8>) -> Option<Round> {
    let ps = split_pat(line, seq![32u8]);
    if ps.len() < 2 {
        None
    } else {
        let opp = if ps[0] == seq![65u8] {
            Some(Shape::Rock)
        } else if ps[0] == seq![66u8] {
            Some(Shape::Paper)
        } else if ps[0] == seq![67u8] {
            Some(Shape::Scissor)
        } else {
            None
        };
        let me = if ps[1] == seq![88u8] {
            Some(Me::X)
        } else if ps[1] == seq![89u8] {
            Some(Me::Y)
        } else if ps[1] == seq![90u8] {
            Some(Me::Z)
        } else {
            None
        };
        match (opp, me) {
            (Some(o), Some(m)) => Some(Round { opponent: o, me: m }),
            _ => None,
        }
    }
}

/// The rounds of the whole sheet, line by line.
pub open spec fn parse_input_spec(s: Seq<u8>) -> Option<Seq<Round>> {
    map_opt(lines_spec(s), |l: Seq<u8>| parse_round_spec(l))
}

/// Every round scores between one and nine points, under either reading.
pub proof fn lemma_score_range(r: Round)
    ensures
        1 <= score_pt1_spec(r) <= 9,
        1 <= score_pt2_spec(r) <= 9,
{
}

/// The first-reading score of a sheet.
pub open spec fn sum_pt1(rs: Seq<Round>) -> int
    decreases rs.len(),
{
    if rs.len() == 0 {
        0
    } else {
        sum_pt1(rs.drop_last()) + score_pt1_spec(rs.last())
    }
}

/// The second-reading score of a sheet.
pub open spec fn sum_pt2(rs: Seq<Round>) -> int
    decreases rs.len(),
{
    if rs.len() == 0 {
        0
    } else {
        sum_pt2(rs.drop_last()) + score_pt2_spec(rs.last())
    }
}

/// A sheet's score lies between its length and nine times its length.
pub proof fn lemma_sum_bounds(rs: Seq<Round>)
    ensures
        0 <= sum_pt1(rs) <= 9 * rs.len(),
        0 <= sum_pt2(rs) <= 9 * rs.len(),
    decreases rs.len(),
{
    if rs.len() > 0 {
        lemma_sum_bounds(rs.drop_last());
        lemma_score_range(rs.last());
    }
}

impl Shape {
    /// The shape that wins against `self`, per `lost_to_spec`.
    pub fn lost_to(&self) -> (r: Self)
        ensures
            r == lost_to_spec(*self),
    {
        match self {
            Shape::Rock => Shape::Paper,
            Shape::Paper => Shape::Scissor,
            Shape::Scissor => Shape::Rock,
        }
    }

    /// The shape that loses against `self`, per `beat_spec`.
    pub fn beat(&self) -> (r: Self)
        ensures
            r == beat_spec(*self),
    {
        match self {
            Shape::Rock => Shape::Scissor,
            Shape::Paper => Shape::Rock,
            Shape::Scissor => Shape::Paper,
        }
    }
}

impl Round {
    /// One line of the sheet, per `parse_round_spec`.
    pub fn from_str(round: &str) -> (r: Option<Round>)
        ensures
            r is Some <==> parse_round_spec(round.spec_bytes()) is Some,
            r is Some ==> r->0 == parse_round_spec(round.spec_bytes())->0,
    {
        parse_round_bytes(round.as_bytes())
    }

    /// The round's score under the first reading, per `score_pt1_spec`.
    pub fn score_pt1(&self) -> (r: i64)
        ensures
            r == score_pt1_spec(*self),
    {
        let mine = match self.me {
            Me::X => Shape::Rock,
            Me::Y => Shape::Paper,
            Me::Z => Shape::Scissor,
        };
        let shape_points: i64 = match mine {
            Shape::Rock => 1,
            Shape::Paper => 2,
            Shape::Scissor => 3,
        };
        let duel_points: i64 = if mine == self.opponent {
            3
        } else if mine.beat() == self.opponent {
            6
        } else {
            0
        };
        shape_points + duel_points
    }

    /// The round's score under the second reading, per `score_pt2_spec`.
    pub fn score_pt2(&self) -> (r: i64)
        ensures
            r == score_pt2_spec(*self),
    {
        let played: Shape = match self.me {
            Me::X => self.opponent.beat(),
            Me::Y => self.opponent,
            Me::Z => self.opponent.lost_to(),
        };
        let shape_points: i64 = match played {
            Shape::Rock => 1,
            Shape::Paper => 2,
            Shape::Scissor => 3,
        };
        let outcome_points: i64 = match self.me {
            Me::X => 0,
            Me::Y => 3,
            Me::Z => 6,
        };
        shape_points + outcome_points
    }
}

/// One line, per `parse_round_spec`.
fn parse_round_bytes(line: &[u8]) -> (r: Option<Round>)
    ensures
        r is Some <==> parse_round_spec(line@) is Some,
        r is Some ==> r->0 == parse_round_spec(line@)->0,
{
    let space: Vec<u8> = vec![32u8];
    proof {
        assert(space@ =~= seq![32u8]);
    }
    let ps = split_pat_exec(line, space.as_slice());
    if ps.len() < 2 {
        return None;
    }
    proof {
        assert(ps@[0]@ == views(ps@)[0]);
        assert(ps@[1]@ == views(ps@)[1]);
    }
    let p0 = &ps[0];
    let opp = if p0.len() == 1 && p0[0] == 65 {
        proof {
            assert(p0@ =~= seq![65u8]);
        }
        Shape::Rock
    } else if p0.len() == 1 && p0[0] == 66 {
        proof {
            assert(p0@ =~= seq![66u8]);
        }
        Shape::Paper
    } else if p0.len() == 1 && p0[0] == 67 {
        proof {
            assert(p0@ =~= seq![67u8]);
        }
        Shape::Scissor
    } else {
        proof {
            assert(p0@ != seq![65u8] && p0@ != seq![66u8] && p0@ != seq![67u8]);
        }
        return None;
    };
    let p1 = &ps[1];
    let me = if p1.len() == 1 && p1[0] == 88 {
        proof {
            assert(p1@ =~= seq![88u8]);
        }
        Me::X
    } else if p1.len() == 1 && p1[0] == 89 {
        proof {
            assert(p1@ =~= seq![89u8]);
        }
        Me::Y
    } else if p1.len() == 1 && p1[0] == 90 {
        proof {
            assert(p1@ =~= seq![90u8]);
        }
        Me::Z
    } else {
        proof {
            assert(p1@ != seq![88u8] && p1@ != seq![89u8] && p1@ != seq![90u8]);
        }
        return None;
    };
    Some(Round { opponent: opp, me })
}

impl Problem {
    pub fn get_day(&self) -> (r: i32)
        ensures
            r == 2,
    {
        2
    }

    /// The rounds of the sheet, per `parse_input_spec`; `None` on any
    /// malformed line.
    pub fn parse_input(&self, r: &[u8]) -> (res: Option<Vec<Round>>)
        ensures
            res is Some <==> parse_input_spec(r@) is Some,
            res is Some ==> res->0@ == parse_input_spec(r@)->0,
    {
        let ghost f = |l: Seq<u8>| parse_round_spec(l);
        let ls = lines_of(r);
        let ghost line_seq = views(ls@);
        proof {
            lemma_map_opt(line_seq, f);
        }
        let mut rounds: Vec<Round> = Vec::new();
        let mut k: usize = 0;
        while k < ls.len()
            invariant
                k <= ls@.len(),
                line_seq == views(ls@),
                f == (|l: Seq<u8>| parse_round_spec(l)),
                parse_input_spec(r@) == map_opt(line_seq, f),
                rounds@.len() == k,
                forall|j: int| 0 <= j < k ==> f(#[trigger] line_seq[j]) is Some,
                forall|j: int| 0 <= j < k ==> (#[trigger] rounds@[j]) == f(line_seq[j])->0,
            decreases ls@.len() - k,
        {
            proof {
                assert(ls@[k as int]@ == line_seq[k as int]);
            }
            match parse_round_bytes(ls[k].as_slice()) {
                None => {
                    proof {
                        lemma_map_opt(line_seq, f);
                    }
                    return None;
                },
                Some(round) => {
                    rounds.push(round);
                },
            }
            k = k + 1;
        }
        proof {
            lemma_map_opt(line_seq, f);
            assert(rounds@ =~= map_opt(line_seq, f)->0);
        }
        Some(rounds)
    }

    /// The sheet's total under the first reading, per `sum_pt1`.
    pub fn solve_first(&self, input: &Vec<Round>) -> (r: i64)
        requires
            9 * input@.len() <= i64::MAX,
        ensures
            r == sum_pt1(input@),
    {
        let n = input.len();
        let mut acc: i64 = 0;
        let mut i: usize = 0;
        while i < n
            invariant
                i <= n,
                n == input@.len(),
                9 * n <= i64::MAX,
                acc == sum_pt1(input@.take(i as int)),
            decreases n - i,
        {
            proof {
                lemma_sum_bounds(input@.take(i as int));
                lemma_score_range(input@[i as int]);
                assert(input@.take(i + 1).drop_last() =~= input@.take(i as int));
                assert(input@.take(i + 1).last() == input@[i as int]);
            }
            acc = acc + input[i].score_pt1();
            i = i + 1;
        }
        proof {
            assert(input@.take(n as int) =~= input@);
        }
        acc
    }

    /// The sheet's total under the second reading, per `sum_pt2`.
    pub fn solve_second(&self, input: &Vec<Round>) -> (r: i64)
        requires
            9 * input@.len() <= i64::MAX,
        ensures
            r == sum_pt2(input@),
    {
        let n = input.len();
        let mut acc: i64 = 0;
        let mut i: usize = 0;
        while i < n
            invariant
                i <= n,
                n == input@.len(),
                9 * n <= i64::MAX,
                acc == sum_pt2(input@.take(i as int)),
            decreases n - i,
        {
            proof {
                lemma_sum_bounds(input@.take(i as int));
                lemma_score_range(input@[i as int]);
                assert(input@.take(i + 1).drop_last() =~= input@.take(i as int));
                assert(input@.take(i + 1).last() == input@[i as int]);
            }
            acc = acc + input[i].score_pt2();
            i = i + 1;
        }
        proof {
            assert(input@.take(n as int) =~= input@);
        }
        acc
    }
}

} // verus!
