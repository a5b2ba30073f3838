//! A rope of knots dragged over a grid.
//!
//! The input lists moves (`L`, `R`, `U`, `D` with a step count). The head
//! starts at the origin and the parsed input is the head position after each
//! single step. A following knot stays put while it touches the knot ahead
//! (within one in each axis) and otherwise moves one step toward it along
//! each axis. The first answer counts the distinct positions of a single
//! follower; the second counts the distinct positions of the ninth knot in a
//! chain of followers.

use crate::text::{
    lemma_map_opt, lines_of, lines_spec, map_opt, parse_usize, parse_usize_spec, tokens_of,
    tokens_spec, views,
};
use vstd::prelude::*;

verus! {

/// A grid position or unit move.
#[derive(Clone, Copy, PartialEq, Eq, Structural)]
pub struct Vec2D {
    pub x: i64,
    pub y: i64,
}

pub struct Problem;

/// The mathematical pair of a position.
pub open spec fn pair_of(v: Vec2D) -> (int, int) {
    (v.x as int, v.y as int)
}

/// The mathematical pairs of a position list.
pub open spec fn math_seq(vs: Seq<Vec2D>) -> Seq<(int, int)> {
    vs.map_values(|v: Vec2D| pair_of(v))
}

/// Magnitude of an integer.
pub open spec fn mag(v: int) -> int {
    if v < 0 {
        -v
    } else {
        v
    }
}

/// Sign of an integer: one step toward it.
pub open spec fn sgn(v: int) -> int {
    if v > 0 {
        1
    } else if v < 0 {
        -1
    } else {
        0
    }
}

/// Where a follower at `t` ends up behind a head at `h`: unchanged while
/// touching, else one step toward the head along each axis.
pub open spec fn follow_math(t: (int, int), h: (int, int)) -> (int, int) {
    let dx = h.0 - t.0;
    let dy = h.1 - t.1;
    if mag(dx) > 1 || mag(dy) > 1 {
        (t.0 + sgn(dx), t.1 + sgn(dy))
    } else {
        t
    }
}

/// The unit move of one direction letter.
pub open spec fn dir_vec(tok: Seq<u8>) -> Option<(int, int)> {
    if tok == seq![76u8] {
        Some((-1, 0))
    } else if tok == seq![82u8] {
        Some((1, 0))
    } else if tok == seq![85u8] {
        Some((0, 1))
    } else if tok == seq![68u8] {
        Some((0, -1))
    } else {
        None
    }
}

/// One move line: a direction token and a step count.
pub open spec fn parse_move_spec(line: Seq<u8>) -> Option<((int, int), int)> {
    let toks = tokens_spec(line);
    if toks.len() < 2 {
        None
    } else {
        match (dir_vec(toks[0]), parse_usize_spec(toks[1])) {
            (Some(d), Some(c)) => Some((d, c as int)),
            _ => None,
        }
    }
}

/// `count` copies of the unit move `d`.
pub open spec fn repeat_move(d: (int, int), count: int) -> Seq<(int, int)> {
    Seq::new(count as nat, |i: int| d)
}

/// All single steps of the move list, in order.
pub open spec fn flatten_moves(moves: Seq<((int, int), int)>) -> Seq<(int, int)>
    decreases moves.len(),
{
    if moves.len() == 0 {
        Seq::empty()
    } else {
        flatten_moves(moves.drop_last()) + repeat_move(moves.last().0, moves.last().1)
    }
}

/// The head position after the first `k` steps, starting at the origin.
pub open spec fn pos_at(steps: Seq<(int, int)>, k: int) -> (int, int)
    decreases k,
{
    if k <= 0 {
        (0, 0)
    } else {
        let p = pos_at(steps, k - 1);
        (p.0 + steps[k - 1].0, p.1 + steps[k - 1].1)
    }
}

/// The head position after every step.
pub open spec fn positions_of(steps: Seq<(int, int)>) -> Seq<(int, int)> {
    Seq::new(steps.len(), |i: int| pos_at(steps, i + 1))
}

/// The parsed input: the head's position after each single step; `None` on a
/// malformed line or when the walk is too long for its coordinates to fit.
pub open spec fn parse_input_spec(s: Seq<u8>) -> Option<Seq<(int, int)>> {
    match map_opt(lines_spec(s), |l: Seq<u8>| parse_move_spec(l)) {
        None => None,
        Some(moves) => {
            let steps = flatten_moves(moves);
            if steps.len() <= i64::MAX {
                Some(positions_of(steps))
            } else {
                None
            }
        },
    }
}

/// A prefix of the steps walks to the same place.
proof fn lemma_pos_at_prefix(s1: Seq<(int, int)>, s2: Seq<(int, int)>, k: int)
    requires
        0 <= k <= s1.len(),
        k <= s2.len(),
        forall|j: int| 0 <= j < k ==> s1[j] == s2[j],
    ensures
        pos_at(s1, k) == pos_at(s2, k),
    decreases k,
{
    if k > 0 {
        lemma_pos_at_prefix(s1, s2, k - 1);
    }
}

/// Unit steps keep the walk within `k` of the origin.
proof fn lemma_pos_at_bound(steps: Seq<(int, int)>, k: int)
    requires
        0 <= k <= steps.len(),
        forall|j: int|
            0 <= j < steps.len() ==> mag((#[trigger] steps[j]).0) <= 1 && mag(steps[j].1) <= 1,
    ensures
        mag(pos_at(steps, k).0) <= k,
        mag(pos_at(steps, k).1) <= k,
    decreases k,
{
    if k > 0 {
        lemma_pos_at_bound(steps, k - 1);
    }
}

/// The follower position after chasing the first `k` head positions.
pub open spec fn fpos_at(heads: Seq<(int, int)>, k: int) -> (int, int)
    decreases k,
{
    if k <= 0 {
        (0, 0)
    } else {
        follow_math(fpos_at(heads, k - 1), heads[k - 1])
    }
}

/// The follower position after each head position.
pub open spec fn follow_seq(heads: Seq<(int, int)>) -> Seq<(int, int)> {
    Seq::new(heads.len(), |i: int| fpos_at(heads, i + 1))
}

/// The ninth knot's positions: the follower chain applied nine times.
pub open spec fn iter_follow(heads: Seq<(int, int)>, n: int) -> Seq<(int, int)>
    decreases n,
{
    if n <= 0 {
        heads
    } else {
        follow_seq(iter_follow(heads, n - 1))
    }
}

/// How many distinct positions a list visits: each position counted at its
/// first appearance.
pub open spec fn distinct_count(s: Seq<(int, int)>) -> nat
    decreases s.len(),
{
    if s.len() == 0 {
        0
    } else {
        distinct_count(s.drop_last()) + if exists|j: int|
            0 <= j < s.len() - 1 && s[j] == s.last() {
            0nat
        } else {
            1nat
        }
    }
}

/// A count of distinct positions never exceeds the list length.
proof fn lemma_distinct_count_bound(s: Seq<(int, int)>)
    ensures
        distinct_count(s) <= s.len(),
    decreases s.len(),
{
    if s.len() > 0 {
        lemma_distinct_count_bound(s.drop_last());
    }
}

/// Every coordinate is within `b` of the origin.
pub open spec fn bounded_by(s: Seq<(int, int)>, b: int) -> bool {
    forall|j: int| 0 <= j < s.len() ==> mag((#[trigger] s[j]).0) <= b && mag(s[j].1) <= b
}

impl Vec2D {
    /// Componentwise sum.
    pub fn add(self, rhs: Self) -> (r: Self)
        requires
            i64::MIN <= self.x + rhs.x <= i64::MAX,
            i64::MIN <= self.y + rhs.y <= i64::MAX,
        ensures
            r.x == self.x + rhs.x,
            r.y == self.y + rhs.y,
    {
        Self { x: self.x + rhs.x, y: self.y + rhs.y }
    }

    /// The follower's next position behind `rhs`, per `follow_math`.
    pub fn follow(&self, rhs: &Self) -> (r: Self)
        requires
            mag(self.x as int) <= 0x3fff_ffff_ffff_ffff,
            mag(self.y as int) <= 0x3fff_ffff_ffff_ffff,
            mag(rhs.x as int) <= 0x3fff_ffff_ffff_ffff,
            mag(rhs.y as int) <= 0x3fff_ffff_ffff_ffff,
        ensures
            pair_of(r) == follow_math(pair_of(*self), pair_of(*rhs)),
            mag(r.x as int) <= if mag(self.x as int) >= mag(rhs.x as int) {
                mag(self.x as int)
            } else {
                mag(rhs.x as int)
            },
            mag(r.y as int) <= if mag(self.y as int) >= mag(rhs.y as int) {
                mag(self.y as int)
            } else {
                mag(rhs.y as int)
            },
    {
        let x_diff = rhs.x - self.x;
        let y_diff = rhs.y - self.y;
        let far = x_diff > 1 || x_diff < -1 || y_diff > 1 || y_diff < -1;
        if far {
            let sx: i64 = if x_diff > 0 {
                1
            } else if x_diff < 0 {
                -1
            } else {
                0
            };
            let sy: i64 = if y_diff > 0 {
                1
            } else if y_diff < 0 {
                -1
            } else {
                0
            };
            Self { x: self.x + sx, y: self.y + sy }
        } else {
            *self
        }
    }
}

/// The follower positions behind a list of head positions, per `follow_seq`.
pub fn follow(v: &Vec<Vec2D>) -> (r: Vec<Vec2D>)
    requires
        bounded_by(math_seq(v@), 0x3fff_ffff_ffff_ffff),
    ensures
        math_seq(r@) == follow_seq(math_seq(v@)),
        bounded_by(math_seq(r@), 0x3fff_ffff_ffff_ffff),
{
    let ghost heads = math_seq(v@);
    let n = v.len();
    let mut out: Vec<Vec2D> = Vec::new();
    let mut t = Vec2D { x: 0, y: 0 };
    let mut k: usize = 0;
    while k < n
        invariant
            k <= n,
            n == v@.len(),
            heads == math_seq(v@),
            bounded_by(heads, 0x3fff_ffff_ffff_ffff),
            pair_of(t) == fpos_at(heads, k as int),
            mag(t.x as int) <= 0x3fff_ffff_ffff_ffff,
            mag(t.y as int) <= 0x3fff_ffff_ffff_ffff,
            out@.len() == k,
            forall|j: int| 0 <= j < k ==> pair_of(#[trigger] out@[j]) == fpos_at(heads, j + 1),
            forall|j: int|
                0 <= j < k ==> mag(pair_of(#[trigger] out@[j]).0) <= 0x3fff_ffff_ffff_ffff && mag(
                    pair_of(out@[j]).1,
                ) <= 0x3fff_ffff_ffff_ffff,
        decreases n - k,
    {
        proof {
            assert(pair_of(v@[k as int]) == heads[k as int]);
        }
        let h = v[k];
        t = t.follow(&h);
        out.push(t);
        k = k + 1;
    }
    proof {
        assert(math_seq(out@) =~= follow_seq(heads));
        assert forall|j: int| 0 <= j < math_seq(out@).len() implies mag(
            (#[trigger] math_seq(out@)[j]).0,
        ) <= 0x3fff_ffff_ffff_ffff && mag(math_seq(out@)[j].1) <= 0x3fff_ffff_ffff_ffff by {
            assert(math_seq(out@)[j] == pair_of(out@[j]));
        }
    }
    out
}

/// How many distinct positions `v` visits, per `distinct_count`.
fn count_distinct(v: &Vec<Vec2D>) -> (r: usize)
    ensures
        r as nat == distinct_count(math_seq(v@)),
{
    let ghost s = math_seq(v@);
    let n = v.len();
    let mut acc: usize = 0;
    let mut i: usize = 0;
    while i < n
        invariant
            i <= n,
            n == v@.len(),
            s == math_seq(v@),
            acc as nat == distinct_count(s.take(i as int)),
            acc <= i,
        decreases n - i,
    {
        proof {
            assert(s.take(i + 1).drop_last() =~= s.take(i as int));
            assert(s.take(i + 1).last() == s[i as int]);
            lemma_distinct_count_bound(s.take(i as int));
        }
        let mut seen: bool = false;
        let mut j: usize = 0;
        while j < i
            invariant
                j <= i,
                i < n,
                n == v@.len(),
                s == math_seq(v@),
                seen <==> exists|q: int| 0 <= q < j && s[q] == s[i as int],
            decreases i - j,
        {
            if v[j] == v[i] {
                proof {
                    assert(pair_of(v@[j as int]) == s[j as int]);
                    assert(pair_of(v@[i as int]) == s[i as int]);
                }
                seen = true;
            }
            j = j + 1;
        }
        if !seen {
            acc = acc + 1;
        }
        proof {
            assert forall|q: int| 0 <= q < i implies (s.take(i + 1)[q] == s.take(i + 1)[i as int])
                == (s[q] == s[i as int]) by {}
        }
        i = i + 1;
    }
    proof {
        assert(s.take(n as int) =~= s);
    }
    acc
}

impl Problem {
    pub fn get_day(&self) -> (r: i32)
        ensures
            r == 9,
    {
        9
    }

    /// The head's position after each step, per `parse_input_spec`.
    pub fn parse_input(&self, r: &[u8]) -> (res: Option<Vec<Vec2D>>)
        ensures
            res is Some <==> parse_input_spec(r@) is Some,
            res is Some ==> math_seq(res->0@) == parse_input_spec(r@)->0,
    {
        let ghost f = |l: Seq<u8>| parse_move_spec(l);
        let ls = lines_of(r);
        let ghost line_seq = views(ls@);
        proof {
            lemma_map_opt(line_seq, f);
        }
        let mut out: Vec<Vec2D> = Vec::new();
        let mut x: i64 = 0;
        let mut y: i64 = 0;
        let mut steps_done: u64 = 0;
        let mut k: usize = 0;
        let ghost mut steps: Seq<(int, int)> = Seq::empty();
        proof {
            assert(flatten_moves(Seq::<((int, int), int)>::empty()) =~= steps);
            assert(line_seq.take(0).map_values(f) =~= Seq::<Option<((int, int), int)>>::empty());
        }
        while k < ls.len()
            invariant
                k <= ls@.len(),
                line_seq == views(ls@),
                f == (|l: Seq<u8>| parse_move_spec(l)),
                parse_input_spec(r@) == (match map_opt(line_seq, f) {
                    None => None,
                    Some(moves) => {
                        let st = flatten_moves(moves);
                        if st.len() <= i64::MAX {
                            Some(positions_of(st))
                        } else {
                            Option::<Seq<(int, int)>>::None
                        }
                    },
                }),
                forall|j: int| 0 <= j < k ==> f(#[trigger] line_seq[j]) is Some,
                map_opt(line_seq, f) is Some ==> steps == flatten_moves(
                    (map_opt(line_seq, f)->0).take(k as int),
                ),
                forall|j: int|
                    0 <= j < steps.len() ==> mag((#[trigger] steps[j]).0) <= 1 && mag(steps[j].1)
                        <= 1,
                steps_done as int == steps.len(),
                steps.len() <= i64::MAX,
                (x as int, y as int) == pos_at(steps, steps.len() as int),
                out@.len() == steps.len(),
                forall|j: int| 0 <= j < out@.len() ==> pair_of(#[trigger] out@[j]) == pos_at(
                    steps,
                    j + 1,
                ),
            decreases ls@.len() - k,
        {
            proof {
                assert(ls@[k as int]@ == line_seq[k as int]);
            }
            let parsed = parse_move_bytes(ls[k].as_slice());
            let (d, count) = match parsed {
                None => {
                    proof {
                        lemma_map_opt(line_seq, f);
                    }
                    return None;
                },
                Some(p) => p,
            };
            let ghost old_steps = steps;
            let ghost mv = f(line_seq[k as int])->0;
            let mut c: usize = 0;
            while c < count
                invariant
                    c <= count,
                    f == (|l: Seq<u8>| parse_move_spec(l)),
                    line_seq == views(ls@),
                    0 <= k < line_seq.len(),
                    parse_input_spec(r@) == (match map_opt(line_seq, f) {
                        None => None,
                        Some(moves) => {
                            let st = flatten_moves(moves);
                            if st.len() <= i64::MAX {
                                Some(positions_of(st))
                            } else {
                                Option::<Seq<(int, int)>>::None
                            }
                        },
                    }),
                    map_opt(line_seq, f) is Some ==> old_steps == flatten_moves(
                        (map_opt(line_seq, f)->0).take(k as int),
                    ),
                    mv == f(line_seq[k as int])->0,
                    parse_move_spec(line_seq[k as int]) == Some(mv),
                    (pair_of(d), count as int) == mv,
                    mag(pair_of(d).0) <= 1 && mag(pair_of(d).1) <= 1,
                    steps == old_steps + repeat_move(mv.0, c as int),
                    forall|j: int|
                        0 <= j < steps.len() ==> mag((#[trigger] steps[j]).0) <= 1 && mag(
                            steps[j].1,
                        ) <= 1,
                    steps_done as int == steps.len(),
                    steps.len() <= i64::MAX,
                    (x as int, y as int) == pos_at(steps, steps.len() as int),
                    out@.len() == steps.len(),
                    forall|j: int| 0 <= j < out@.len() ==> pair_of(#[trigger] out@[j]) == pos_at(
                        steps,
                        j + 1,
                    ),
                decreases count - c,
            {
                if steps_done >= 0x7fff_ffff_ffff_ffffu64 {
                    proof {
                        lemma_flatten_long(line_seq, f, k as int, c as int, steps, old_steps, mv);
                    }
                    return None;
                }
                let ghost steps2 = steps.push(pair_of(d));
                proof {
                    lemma_pos_at_bound(steps, steps.len() as int);
                    assert forall|j: int| 0 <= j < steps.len() implies #[trigger] pos_at(
                        steps2,
                        j + 1,
                    ) == pos_at(steps, j + 1) by {
                        lemma_pos_at_prefix(steps2, steps, j + 1);
                    }
                    lemma_pos_at_prefix(steps2, steps, steps.len() as int);
                    assert(repeat_move(mv.0, c + 1).drop_last() =~= repeat_move(mv.0, c as int));
                    assert(steps2 =~= old_steps + repeat_move(mv.0, c + 1));
                }
                x = x + d.x;
                y = y + d.y;
                proof {
                    steps = steps2;
                }
                out.push(Vec2D { x, y });
                steps_done = steps_done + 1;
                c = c + 1;
            }
            proof {
                if map_opt(line_seq, f) is Some {
                    let moves = map_opt(line_seq, f)->0;
                    lemma_map_opt(line_seq, f);
                    assert(moves.take(k + 1).drop_last() =~= moves.take(k as int));
                    assert(moves.take(k + 1).last() == mv);
                    assert(steps =~= flatten_moves(moves.take(k + 1)));
                }
            }
            k = k + 1;
        }
        proof {
            lemma_map_opt(line_seq, f);
            let moves = map_opt(line_seq, f)->0;
            assert(moves.take(moves.len() as int) =~= moves);
            assert(math_seq(out@) =~= positions_of(steps));
        }
        Some(out)
    }

    /// Distinct positions of a single follower, per `distinct_count` over
    /// `follow_seq`.
    pub fn solve_first(&self, input: &Vec<Vec2D>) -> (r: usize)
        requires
            bounded_by(math_seq(input@), 0x3fff_ffff_ffff_ffff),
        ensures
            r as nat == distinct_count(follow_seq(math_seq(input@))),
    {
        let tail = follow(input);
        count_distinct(&tail)
    }

    /// Distinct positions of the ninth knot, per `distinct_count` over nine
    /// follower chains.
    pub fn solve_second(&self, input: &Vec<Vec2D>) -> (r: usize)
        requires
            bounded_by(math_seq(input@), 0x3fff_ffff_ffff_ffff),
        ensures
            r as nat == distinct_count(iter_follow(math_seq(input@), 9)),
    {
        let ghost heads = math_seq(input@);
        let mut cur = follow(input);
        proof {
            assert(iter_follow(heads, 0) == heads);
            assert(iter_follow(heads, 1) == follow_seq(iter_follow(heads, 0)));
        }
        let mut round: usize = 1;
        while round < 9
            invariant
                1 <= round <= 9,
                math_seq(cur@) == iter_follow(heads, round as int),
                heads == math_seq(input@),
                bounded_by(math_seq(cur@), 0x3fff_ffff_ffff_ffff),
            decreases 9 - round,
        {
            cur = follow(&cur);
            round = round + 1;
        }
        count_distinct(&cur)
    }
}

/// When the walk has already used up the whole coordinate range, the full
/// step list is longer still.
proof fn lemma_flatten_long(
    line_seq: Seq<Seq<u8>>,
    f: spec_fn(Seq<u8>) -> Option<((int, int), int)>,
    k: int,
    c: int,
    steps: Seq<(int, int)>,
    old_steps: Seq<(int, int)>,
    mv: ((int, int), int),
)
    requires
        f == (|l: Seq<u8>| parse_move_spec(l)),
        0 <= k < line_seq.len(),
        parse_move_spec(line_seq[k]) == Some(mv),
        0 <= c < mv.1,
        steps == old_steps + repeat_move(mv.0, c),
        steps.len() >= i64::MAX,
        map_opt(line_seq, f) is Some ==> old_steps == flatten_moves(
            (map_opt(line_seq, f)->0).take(k),
        ),
    ensures
        (match map_opt(line_seq, f) {
            None => true,
            Some(moves) => flatten_moves(moves).len() > i64::MAX,
        }),
{
    if map_opt(line_seq, f) is Some {
        let moves = map_opt(line_seq, f)->0;
        lemma_map_opt(line_seq, f);
        assert(moves[k] == mv);
        assert forall|j: int| 0 <= j < moves.len() implies (#[trigger] moves[j]).1 >= 0 by {
            assert(moves[j] == f(line_seq[j])->0);
            assert(f(line_seq[j]) is Some);
        }
        lemma_flatten_prefix_le(moves, k + 1);
        assert(moves.take(k + 1).drop_last() =~= moves.take(k));
        assert(moves.take(k + 1).last() == mv);
        assert(flatten_moves(moves.take(k + 1)).len() == old_steps.len() + mv.1);
        assert(old_steps.len() + mv.1 > steps.len());
    }
}

/// A prefix of the moves expands to no more steps than the whole.
proof fn lemma_flatten_prefix_le(moves: Seq<((int, int), int)>, k: int)
    requires
        0 <= k <= moves.len(),
        forall|j: int| 0 <= j < moves.len() ==> (#[trigger] moves[j]).1 >= 0,
    ensures
        flatten_moves(moves.take(k)).len() <= flatten_moves(moves).len(),
    decreases moves.len() - k,
{
    if k < moves.len() {
        lemma_flatten_prefix_le(moves, k + 1);
        assert(moves.take(k + 1).drop_last() =~= moves.take(k));
        assert(moves.take(k + 1).last().1 >= 0);
        assert(flatten_moves(moves.take(k + 1)).len() >= flatten_moves(moves.take(k)).len());
    } else {
        assert(moves.take(k) =~= moves);
    }
}

/// One move line, per `parse_move_spec`.
fn parse_move_bytes(line: &[u8]) -> (r: Option<(Vec2D, usize)>)
    ensures
        r is Some <==> parse_move_spec(line@) is Some,
        r is Some ==> {
            let mv = parse_move_spec(line@)->0;
            pair_of((r->0).0) == mv.0 && (r->0).1 as int == mv.1
        },
{
    let toks = tokens_of(line);
    if toks.len() < 2 {
        return None;
    }
    proof {
        assert(toks@[0]@ == views(toks@)[0]);
        assert(toks@[1]@ == views(toks@)[1]);
    }
    let t0 = &toks[0];
    let d: Vec2D = if t0.len() == 1 && t0[0] == 76 {
        proof {
            assert(t0@ =~= seq![76u8]);
        }
        Vec2D { x: -1, y: 0 }
    } else if t0.len() == 1 && t0[0] == 82 {
        proof {
            assert(t0@ =~= seq![82u8]);
        }
        Vec2D { x: 1, y: 0 }
    } else if t0.len() == 1 && t0[0] == 85 {
        proof {
            assert(t0@ =~= seq![85u8]);
        }
        Vec2D { x: 0, y: 1 }
    } else if t0.len() == 1 && t0[0] == 68 {
        proof {
            assert(t0@ =~= seq![68u8]);
        }
        Vec2D { x: 0, y: -1 }
    } else {
        proof {
            assert(t0@ != seq![76u8] && t0@ != seq![82u8] && t0@ != seq![85u8] && t0@ != seq![
                68u8,
            ]);
        }
        return None;
    };
    match parse_usize(toks[1].as_slice()) {
        None => None,
        Some(c) => Some((d, c)),
    }
}

} // verus!
