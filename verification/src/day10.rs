//! A one-register video machine.
//!
//! Each instruction is either a one-cycle no-op or a two-cycle addition to
//! the register. The first answer sums the signal strength (cycle number
//! times register value) at cycles twenty, sixty, and so on up to two
//! hundred twenty. The second draws the screen: during every cycle one pixel
//! lights up when the register, read as a sprite position, is within one of
//! the pixel's column; the picture is six rows of forty pixels joined by
//! line feeds.

use crate::text::{
    ascii_to_string, bytes_eq, lemma_map_opt, lines_of, lines_spec, map_opt, parse_i64,
    parse_i64_spec, tokens_of, tokens_spec, views,
};
use vstd::prelude::*;
use vstd::string::StringSliceAdditionalSpecFns;

verus! {

/// One instruction.
#[derive(Clone, Copy)]
pub enum Op {
    Noop,
    Add(i64),
}

pub struct Problem;

/// The register after the instruction.
pub open spec fn op_step(op: Op, x: int) -> int {
    match op {
        Op::Noop => x,
        Op::Add(i) => x + i,
    }
}

/// How many cycles the instruction takes.
pub open spec fn op_cycles(op: Op) -> int {
    match op {
        Op::Noop => 1,
        Op::Add(_) => 2,
    }
}

/// One instruction line: its first whitespace token names the instruction,
/// and an addition reads its amount from the second token.
pub open spec fn parse_op_spec(line: Seq<u8>) -> Option<Op> {
    let toks = tokens_spec(line);
    if toks.len() == 0 {
        None
    } else if toks[0] == seq![110u8, 111u8, 111u8, 112u8] {
        Some(Op::Noop)
    } else if toks[0] == seq![97u8, 100u8, 100u8, 120u8] {
        if toks.len() < 2 {
            None
        } else {
            match parse_i64_spec(toks[1]) {
                None => None,
                Some(v) => Some(Op::Add(v as i64)),
            }
        }
    } else {
        None
    }
}

/// The instruction list, line by line.
pub open spec fn parse_input_spec(s: Seq<u8>) -> Option<Seq<Op>> {
    map_opt(lines_spec(s), |l: Seq<u8>| parse_op_spec(l))
}

/// The sampling state after the first `k` instructions: current cycle,
/// register, accumulated signal sum, and next milestone cycle. Once the
/// cycle count passes two hundred twenty the state absorbs: later
/// instructions change nothing.
pub open spec fn sig_state(ops: Seq<Op>, k: int) -> (int, int, int, int)
    decreases k,
{
    if k <= 0 {
        (1, 1, 0, 20)
    } else {
        let p = sig_state(ops, k - 1);
        if p.0 > 220 {
            p
        } else {
            let c2 = p.0 + op_cycles(ops[k - 1]);
            if c2 > p.3 {
                (c2, op_step(ops[k - 1], p.1), p.2 + p.3 * p.1, p.3 + 40)
            } else {
                (c2, op_step(ops[k - 1], p.1), p.2, p.3)
            }
        }
    }
}

/// Once absorbed, the sampling state never changes again.
proof fn lemma_sig_absorbed(ops: Seq<Op>, i: int, j: int)
    requires
        0 <= i <= j,
        sig_state(ops, i).0 > 220,
    ensures
        sig_state(ops, j) == sig_state(ops, i),
    decreases j - i,
{
    if i < j {
        lemma_sig_absorbed(ops, i, j - 1);
    }
}

/// The first answer: the signal sum after every instruction has run.
pub open spec fn signal_sum_spec(ops: Seq<Op>) -> int {
    sig_state(ops, ops.len() as int).2
}

/// Every addition amount is small and the list is short: room enough that
/// the sampling arithmetic stays far inside `i64`.
pub open spec fn ops_small(ops: Seq<Op>) -> bool {
    &&& ops.len() <= 1000000
    &&& forall|j: int|
        0 <= j < ops.len() ==> match #[trigger] ops[j] {
            Op::Noop => true,
            Op::Add(v) => -1000 <= v <= 1000,
        }
}

impl Op {
    /// One instruction line, per `parse_op_spec`.
    pub fn from_str(s: &str) -> (r: Option<Op>)
        ensures
            r is Some <==> parse_op_spec(s.spec_bytes()) is Some,
            r is Some ==> r->0 == parse_op_spec(s.spec_bytes())->0,
    {
        parse_op_bytes(s.as_bytes())
    }

    /// The register after this instruction, per `op_step`.
    pub fn operate(&self, x: i64) -> (r: i64)
        requires
            i64::MIN <= op_step(*self, x as int) <= i64::MAX,
        ensures
            r as int == op_step(*self, x as int),
    {
        match self {
            Op::Noop => x,
            Op::Add(i) => x + i,
        }
    }

    /// The instruction's cycle count, per `op_cycles`.
    pub fn cycles(&self) -> (r: i64)
        ensures
            r as int == op_cycles(*self),
    {
        match self {
            Op::Noop => 1,
            Op::Add(_) => 2,
        }
    }
}

/// One instruction line, per `parse_op_spec`.
fn parse_op_bytes(line: &[u8]) -> (r: Option<Op>)
    ensures
        r is Some <==> parse_op_spec(line@) is Some,
        r is Some ==> r->0 == parse_op_spec(line@)->0,
{
    let toks = tokens_of(line);
    if toks.len() == 0 {
        return None;
    }
    proof {
        assert(toks@[0]@ == views(toks@)[0]);
    }
    let noop_word: Vec<u8> = vec![110u8, 111u8, 111u8, 112u8];
    let addx_word: Vec<u8> = vec![97u8, 100u8, 100u8, 120u8];
    proof {
        assert(noop_word@ =~= seq![110u8, 111u8, 111u8, 112u8]);
        assert(addx_word@ =~= seq![97u8, 100u8, 100u8, 120u8]);
    }
    if bytes_eq(toks[0].as_slice(), noop_word.as_slice()) {
        return Some(Op::Noop);
    }
    if bytes_eq(toks[0].as_slice(), addx_word.as_slice()) {
        if toks.len() < 2 {
            return None;
        }
        proof {
            assert(toks@[1]@ == views(toks@)[1]);
        }
        return match parse_i64(toks[1].as_slice()) {
            None => None,
            Some(v) => Some(Op::Add(v)),
        };
    }
    None
}

/// The drawing state after the first `k` instructions: cycles spent and
/// register value.
pub open spec fn crt_state(ops: Seq<Op>, k: int) -> (int, int)
    decreases k,
{
    if k <= 0 {
        (0, 1)
    } else {
        let p = crt_state(ops, k - 1);
        (p.0 + op_cycles(ops[k - 1]), op_step(ops[k - 1], p.1))
    }
}

/// The pixel drawn in cycle `c` with register `x`: lit when the sprite
/// covers the pixel's column.
pub open spec fn pixel(c: int, x: int) -> u8 {
    let col = c % 40;
    if -1 <= x - col <= 1 {
        35u8
    } else {
        46u8
    }
}

/// All pixels drawn by the first `k` instructions, in drawing order.
pub open spec fn pixels_spec(ops: Seq<Op>, k: int) -> Seq<u8>
    decreases k,
{
    if k <= 0 {
        Seq::empty()
    } else {
        let p = crt_state(ops, k - 1);
        let drawn = match ops[k - 1] {
            Op::Noop => seq![pixel(p.0, p.1)],
            Op::Add(_) => seq![pixel(p.0, p.1), pixel(p.0 + 1, p.1)],
        };
        pixels_spec(ops, k - 1) + drawn
    }
}

/// The first `rows_left` rows of forty pixels, joined by line feeds; a last
/// short row is kept whole, and pixels past the row budget are dropped.
pub open spec fn render_from(pix: Seq<u8>, rows_left: int) -> Seq<u8>
    decreases rows_left,
{
    if rows_left <= 0 || pix.len() == 0 {
        Seq::empty()
    } else if pix.len() <= 40 {
        pix
    } else if rows_left == 1 {
        pix.take(40)
    } else {
        pix.take(40) + seq![10u8] + render_from(pix.skip(40), rows_left - 1)
    }
}

/// The second answer: the six screen rows drawn by the whole program.
pub open spec fn screen_spec(ops: Seq<Op>) -> Seq<u8> {
    render_from(pixels_spec(ops, ops.len() as int), 6)
}

impl Problem {
    pub fn get_day(&self) -> (r: i32)
        ensures
            r == 10,
    {
        10
    }

    /// The instruction list, per `parse_input_spec`; `None` on a malformed
    /// line.
    pub fn parse_input(&self, r: &[u8]) -> (res: Option<Vec<Op>>)
        ensures
            res is Some <==> parse_input_spec(r@) is Some,
            res is Some ==> res->0@ == parse_input_spec(r@)->0,
    {
        let ghost f = |l: Seq<u8>| parse_op_spec(l);
        let ls = lines_of(r);
        let ghost line_seq = views(ls@);
        proof {
            lemma_map_opt(line_seq, f);
        }
        let mut ops: Vec<Op> = Vec::new();
        let mut k: usize = 0;
        while k < ls.len()
            invariant
                k <= ls@.len(),
                line_seq == views(ls@),
                f == (|l: Seq<u8>| parse_op_spec(l)),
                parse_input_spec(r@) == map_opt(line_seq, f),
                ops@.len() == k,
                forall|j: int| 0 <= j < k ==> f(#[trigger] line_seq[j]) is Some,
                forall|j: int| 0 <= j < k ==> (#[trigger] ops@[j]) == f(line_seq[j])->0,
            decreases ls@.len() - k,
        {
            proof {
                assert(ls@[k as int]@ == line_seq[k as int]);
            }
            match parse_op_bytes(ls[k].as_slice()) {
                None => {
                    proof {
                        lemma_map_opt(line_seq, f);
                    }
                    return None;
                },
                Some(op) => {
                    ops.push(op);
                },
            }
            k = k + 1;
        }
        proof {
            lemma_map_opt(line_seq, f);
            assert(ops@ =~= map_opt(line_seq, f)->0);
        }
        Some(ops)
    }

    /// The signal-strength sum, per `signal_sum_spec`.
    pub fn solve_first(&self, input: &Vec<Op>) -> (r: i64)
        requires
            ops_small(input@),
        ensures
            r as int == signal_sum_spec(input@),
    {
        let n = input.len();
        let mut cycles: i64 = 1;
        let mut x: i64 = 1;
        let mut val: i64 = 0;
        let mut milestone: i64 = 20;
        let mut i: usize = 0;
        let ghost mut adds: int = 0;
        while i < n
            invariant
                i <= n,
                n == input@.len(),
                n <= 1000000,
                ops_small(input@),
                (cycles as int, x as int, val as int, milestone as int) == sig_state(
                    input@,
                    i as int,
                ),
                cycles <= 222,
                1 <= cycles,
                milestone == 20 + 40 * adds,
                0 <= adds <= 6,
                -1 - 1000 * i <= x <= 1 + 1000 * i,
                -220000000220 * adds <= val <= 220000000220 * adds,
            decreases n - i,
        {
            if cycles > 220 {
                proof {
                    lemma_sig_absorbed(input@, i as int, n as int);
                }
                return val;
            }
            let op = input[i];
            cycles = cycles + op.cycles();
            proof {
                assert(-1000000001 <= x <= 1000000001);
                assert(-1320000001320 <= 220000000220 * adds <= 1320000001320)
                    by (nonlinear_arith)
                    requires
                        0 <= adds <= 6,
                ;
            }
            if cycles > milestone {
                proof {
                    assert(milestone <= 220);
                    assert(adds <= 5);
                    assert(milestone * x <= 220 * 1000000001 && milestone * x >= -(220
                        * 1000000001)) by (nonlinear_arith)
                        requires
                            20 <= milestone <= 220,
                            -1000000001 <= x <= 1000000001,
                    ;
                }
                val = val + milestone * x;
                proof {
                    assert(-220000000220 * (adds + 1) <= val <= 220000000220 * (adds + 1))
                        by (nonlinear_arith)
                        requires
                            0 <= adds <= 5,
                            -220000000220 * adds - 220000000220 <= val <= 220000000220 * adds
                                + 220000000220,
                    ;
                }
                milestone = milestone + 40;
                proof {
                    adds = adds + 1;
                }
            }
            proof {
                match input@[i as int] {
                    Op::Noop => {},
                    Op::Add(v) => {
                        assert(-1000 <= v <= 1000);
                    },
                }
            }
            x = op.operate(x);
            i = i + 1;
        }
        val
    }

    /// The rendered screen, per `screen_spec`: its characters are exactly
    /// the screen bytes.
    pub fn solve_second(&self, input: &Vec<Op>) -> (r: String)
        requires
            ops_small(input@),
        ensures
            r@ == screen_spec(input@).map_values(|b: u8| b as char),
    {
        let n = input.len();
        let mut pix: Vec<u8> = Vec::new();
        let mut cycles: i64 = 0;
        let mut x: i64 = 1;
        let mut i: usize = 0;
        while i < n
            invariant
                i <= n,
                n == input@.len(),
                ops_small(input@),
                (cycles as int, x as int) == crt_state(input@, i as int),
                n <= 1000000,
                0 <= cycles,
                cycles <= 2 * i,
                -1 - 1000 * i <= x <= 1 + 1000 * i,
                pix@ == pixels_spec(input@, i as int),
                forall|j: int| 0 <= j < pix@.len() ==> #[trigger] pix@[j] < 128,
            decreases n - i,
        {
            let op = input[i];
            proof {
                match input@[i as int] {
                    Op::Noop => {},
                    Op::Add(v) => {
                        assert(-1000 <= v <= 1000);
                    },
                }
            }
            match op {
                Op::Noop => {
                    let col = cycles % 40;
                    let d = x - col;
                    let b: u8 = if -1 <= d && d <= 1 {
                        35
                    } else {
                        46
                    };
                    pix.push(b);
                    proof {
                        assert(pix@ =~= pixels_spec(input@, i + 1));
                    }
                },
                Op::Add(_) => {
                    let col = cycles % 40;
                    let d = x - col;
                    let b: u8 = if -1 <= d && d <= 1 {
                        35
                    } else {
                        46
                    };
                    pix.push(b);
                    let col2 = (cycles + 1) % 40;
                    let d2 = x - col2;
                    let b2: u8 = if -1 <= d2 && d2 <= 1 {
                        35
                    } else {
                        46
                    };
                    pix.push(b2);
                    proof {
                        assert(pix@ =~= pixels_spec(input@, i + 1));
                    }
                },
            }
            cycles = cycles + op.cycles();
            x = op.operate(x);
            i = i + 1;
        }
        let mut out: Vec<u8> = Vec::new();
        let mut start: usize = 0;
        let mut rows_left: usize = 6;
        let total = pix.len();
        proof {
            assert(pix@.skip(0) =~= pix@);
            assert(render_from(pix@, 6) =~= out@ + render_from(pix@.skip(0), 6));
        }
        loop
            invariant
                start <= total,
                total == pix@.len(),
                pix@ == pixels_spec(input@, input@.len() as int),
                rows_left <= 6,
                forall|j: int| 0 <= j < pix@.len() ==> #[trigger] pix@[j] < 128,
                forall|j: int| 0 <= j < out@.len() ==> #[trigger] out@[j] < 128,
                render_from(pix@, 6) =~= out@ + render_from(
                    pix@.skip(start as int),
                    rows_left as int,
                ),
            decreases rows_left,
        {
            let ghost rest = pix@.skip(start as int);
            if rows_left == 0 || start == total {
                proof {
                    assert(rest.len() == 0 || rows_left == 0);
                    assert(render_from(rest, rows_left as int) =~= Seq::<u8>::empty());
                    assert(render_from(pix@, 6) =~= out@);
                }
                return ascii_to_string(out);
            }
            if total - start <= 40 {
                let ghost before = out@;
                push_range(&mut out, &pix, start, total);
                proof {
                    assert(pix@.subrange(start as int, total as int) =~= rest);
                    assert(render_from(rest, rows_left as int) =~= rest);
                    assert(render_from(pix@, 6) =~= out@);
                    assert forall|j: int| 0 <= j < out@.len() implies #[trigger] out@[j]
                        < 128 by {
                        if j >= before.len() {
                            assert(out@[j] == pix@[start + (j - before.len())]);
                        }
                    }
                }
                return ascii_to_string(out);
            }
            let ghost before = out@;
            push_range(&mut out, &pix, start, start + 40);
            proof {
                assert(pix@.subrange(start as int, start + 40) =~= rest.take(40));
                assert forall|j: int| 0 <= j < out@.len() implies #[trigger] out@[j] < 128 by {
                    if j >= before.len() {
                        assert(out@[j] == pix@[start + (j - before.len())]);
                    }
                }
            }
            if rows_left == 1 {
                proof {
                    assert(render_from(rest, 1) =~= rest.take(40));
                    assert(render_from(pix@, 6) =~= out@);
                }
                return ascii_to_string(out);
            }
            out.push(10);
            proof {
                assert(rest.skip(40) =~= pix@.skip(start + 40));
                assert(render_from(rest, rows_left as int) =~= rest.take(40) + seq![10u8]
                    + render_from(rest.skip(40), rows_left - 1));
                assert(render_from(pix@, 6) =~= out@ + render_from(
                    pix@.skip(start + 40),
                    rows_left - 1,
                ));
            }
            start = start + 40;
            rows_left = rows_left - 1;
        }
    }
}

/// Append the bytes of `src` from `a` (inclusive) to `b` (exclusive).
fn push_range(out: &mut Vec<u8>, src: &Vec<u8>, a: usize, b: usize)
    requires
        a <= b <= src@.len(),
    ensures
        final(out)@ == old(out)@ + src@.subrange(a as int, b as int),
{
    let mut p: usize = a;
    while p < b
        invariant
            a <= p <= b <= src@.len(),
            out@ =~= old(out)@ + src@.subrange(a as int, p as int),
        decreases b - p,
    {
        out.push(src[p]);
        proof {
            assert(out@ =~= old(out)@ + src@.subrange(a as int, p + 1));
        }
        p = p + 1;
    }
    proof {
        assert(out@ =~= old(out)@ + src@.subrange(a as int, b as int));
    }
}

} // verus!
