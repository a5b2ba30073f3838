//! Crate stacks rearranged by move instructions.
//!
//! The input first draws the stacks, one line per stack with the top crate
//! last, then a blank line, then instructions of the form `move <count> from
//! <stack> to <stack>` with one-based stack numbers. The first answer moves
//! crates one at a time (reversing each batch); the second moves each batch
//! in one piece. Either answer reads the top crate of every stack, in stack
//! order.

use crate::text::{
    ascii_to_string, lines_of, lines_spec, map_opt, parse_usize, parse_usize_spec, tokens_of,
    tokens_spec, views,
};
use vstd::prelude::*;

verus! {

/// One move order: how many crates, from which stack, to which stack
/// (zero-based).
#[derive(Clone, Copy, PartialEq, Eq, Structural)]
pub struct Instruction {
    pub count: usize,
    pub from: usize,
    pub to: usize,
}

/// The parsed puzzle: the stacks and the move orders.
pub struct Input {
    pub stacks: Vec<Vec<u8>>,
    pub insts: Vec<Instruction>,
}

pub struct Problem;

/// One instruction line: its second, fourth and sixth whitespace tokens are
/// the count and the one-based source and target stacks.
pub open spec fn parse_inst_spec(l: Seq<u8>) -> Option<Instruction> {
    let toks = tokens_spec(l);
    if toks.len() < 6 {
        None
    } else {
        match (parse_usize_spec(toks[1]), parse_usize_spec(toks[3]), parse_usize_spec(toks[5])) {
            (Some(c), Some(f), Some(t)) => if f >= 1 && t >= 1 {
                Some(
                    Instruction {
                        count: c as usize,
                        from: (f - 1) as usize,
                        to: (t - 1) as usize,
                    },
                )
            } else {
                None
            },
            _ => None,
        }
    }
}

/// The fold over input lines: stack lines until the first blank line, then
/// instruction lines; a blank line anywhere just switches to instructions.
pub open spec fn parse_lines_spec(lines: Seq<Seq<u8>>) -> Option<
    (Seq<Seq<u8>>, Seq<Instruction>, bool),
>
    decreases lines.len(),
{
    if lines.len() == 0 {
        Some((Seq::empty(), Seq::empty(), false))
    } else {
        match parse_lines_spec(lines.drop_last()) {
            None => None,
            Some((st, ins, fin)) => {
                let l = lines.last();
                if l.len() == 0 {
                    Some((st, ins, true))
                } else if !fin {
                    Some((st.push(l), ins, false))
                } else {
                    match parse_inst_spec(l) {
                        None => None,
                        Some(inst) => Some((st, ins.push(inst), true)),
                    }
                }
            },
        }
    }
}

/// The parsed puzzle of a whole input text.
pub open spec fn parse_input_spec(s: Seq<u8>) -> Option<(Seq<Seq<u8>>, Seq<Instruction>)> {
    match parse_lines_spec(lines_spec(s)) {
        None => None,
        Some((st, ins, _)) => Some((st, ins)),
    }
}

/// One move order applied to the stacks; `reversed` says whether the moved
/// batch arrives in reverse order (one-at-a-time moving). `None` when a
/// stack number is out of range or the source holds too few crates.
pub open spec fn apply_inst(stacks: Seq<Seq<u8>>, inst: Instruction, reversed: bool) -> Option<
    Seq<Seq<u8>>,
> {
    let f = inst.from as int;
    let t = inst.to as int;
    let k = inst.count as int;
    if f >= stacks.len() || t >= stacks.len() || stacks[f].len() < k {
        None
    } else {
        let rest = stacks[f].take(stacks[f].len() - k);
        let moved = stacks[f].skip(stacks[f].len() - k);
        let arrived = if reversed {
            moved.reverse()
        } else {
            moved
        };
        if f == t && reversed {
            Some(stacks)
        } else {
            let s1 = stacks.update(f, rest);
            Some(s1.update(t, s1[t] + arrived))
        }
    }
}

/// All move orders applied in sequence.
pub open spec fn apply_all(stacks: Seq<Seq<u8>>, insts: Seq<Instruction>, reversed: bool) -> Option<
    Seq<Seq<u8>>,
>
    decreases insts.len(),
{
    if insts.len() == 0 {
        Some(stacks)
    } else {
        match apply_all(stacks, insts.drop_last(), reversed) {
            None => None,
            Some(s) => apply_inst(s, insts.last(), reversed),
        }
    }
}

/// The top crate of every stack, in stack order; `None` when some stack is
/// empty.
pub open spec fn tops(stacks: Seq<Seq<u8>>) -> Option<Seq<u8>> {
    map_opt(
        stacks,
        |st: Seq<u8>| if st.len() == 0 {
            Option::<u8>::None
        } else {
            Some(st.last())
        },
    )
}

/// Every byte is ASCII, so the word can stand in a `String` character for
/// character.
pub open spec fn all_ascii(s: Seq<u8>) -> bool {
    forall|j: int| 0 <= j < s.len() ==> #[trigger] s[j] < 128
}

/// The answer word: the tops after every move order has been applied, when
/// they spell an ASCII word.
pub open spec fn answer_spec(
    stacks: Seq<Seq<u8>>,
    insts: Seq<Instruction>,
    reversed: bool,
) -> Option<Seq<u8>> {
    match apply_all(stacks, insts, reversed) {
        None => None,
        Some(fin) => match tops(fin) {
            None => None,
            Some(word) => if all_ascii(word) {
                Some(word)
            } else {
                None
            },
        },
    }
}

/// One instruction line, per `parse_inst_spec`.
fn parse_inst(l: &[u8]) -> (r: Option<Instruction>)
    ensures
        r is Some <==> parse_inst_spec(l@) is Some,
        r is Some ==> r->0 == parse_inst_spec(l@)->0,
{
    let toks = tokens_of(l);
    if toks.len() < 6 {
        return None;
    }
    proof {
        assert(toks@[1]@ == views(toks@)[1]);
        assert(toks@[3]@ == views(toks@)[3]);
        assert(toks@[5]@ == views(toks@)[5]);
    }
    let c = match parse_usize(toks[1].as_slice()) {
        None => {
            return None;
        },
        Some(v) => v,
    };
    let f = match parse_usize(toks[3].as_slice()) {
        None => {
            return None;
        },
        Some(v) => v,
    };
    let t = match parse_usize(toks[5].as_slice()) {
        None => {
            return None;
        },
        Some(v) => v,
    };
    if f >= 1 && t >= 1 {
        Some(Instruction { count: c, from: f - 1, to: t - 1 })
    } else {
        None
    }
}

impl Problem {
    pub fn get_day(&self) -> (r: i32)
        ensures
            r == 5,
    {
        5
    }

    /// The stacks and move orders of the input, per `parse_input_spec`.
    pub fn parse_input(&self, r: &[u8]) -> (res: Option<Input>)
        ensures
            res is Some <==> parse_input_spec(r@) is Some,
            res is Some ==> {
                &&& views((res->0).stacks@) == (parse_input_spec(r@)->0).0
                &&& (res->0).insts@ == (parse_input_spec(r@)->0).1
            },
    {
        let ls = lines_of(r);
        let ghost line_seq = views(ls@);
        let mut stacks: Vec<Vec<u8>> = Vec::new();
        let mut insts: Vec<Instruction> = Vec::new();
        let mut finished: bool = false;
        let mut k: usize = 0;
        proof {
            assert(line_seq.take(0) =~= Seq::<Seq<u8>>::empty());
            assert(views(stacks@) =~= Seq::<Seq<u8>>::empty());
        }
        while k < ls.len()
            invariant
                k <= ls@.len(),
                line_seq == views(ls@),
                line_seq == lines_spec(r@),
                parse_lines_spec(line_seq.take(k as int)) == Some(
                    (views(stacks@), insts@, finished),
                ),
            decreases ls@.len() - k,
        {
            proof {
                assert(ls@[k as int]@ == line_seq[k as int]);
                assert(line_seq.take(k + 1).drop_last() =~= line_seq.take(k as int));
                assert(line_seq.take(k + 1).last() == line_seq[k as int]);
            }
            let line = &ls[k];
            if line.len() == 0 {
                finished = true;
            } else if !finished {
                let copy = crate::text::copy_range(line.as_slice(), 0, line.len());
                proof {
                    assert(copy@ =~= line_seq[k as int]);
                }
                stacks.push(copy);
                proof {
                    assert(views(stacks@) =~= views(stacks@.drop_last()).push(copy@));
                }
            } else {
                match parse_inst(line.as_slice()) {
                    None => {
                        proof {
                            lemma_parse_lines_none_sticky(line_seq, k + 1);
                        }
                        return None;
                    },
                    Some(inst) => {
                        insts.push(inst);
                    },
                }
            }
            k = k + 1;
        }
        proof {
            assert(line_seq.take(ls@.len() as int) =~= line_seq);
        }
        Some(Input { stacks, insts })
    }

    /// The answer moving crates one at a time, per `answer_spec` with
    /// reversed batches: the word of top crates, or `None` when a move order
    /// is impossible or a stack ends empty.
    pub fn solve_first(&self, input: &Input) -> (r: Option<String>)
        ensures
            r is Some <==> answer_spec(views(input.stacks@), input.insts@, true) is Some,
            r is Some ==> r->0@ == (answer_spec(views(input.stacks@), input.insts@, true)
                ->0).map_values(|b: u8| b as char),
    {
        solve_either(input, true)
    }

    /// The answer moving each batch in one piece, per `answer_spec` without
    /// reversal.
    pub fn solve_second(&self, input: &Input) -> (r: Option<String>)
        ensures
            r is Some <==> answer_spec(views(input.stacks@), input.insts@, false) is Some,
            r is Some ==> r->0@ == (answer_spec(views(input.stacks@), input.insts@, false)
                ->0).map_values(|b: u8| b as char),
    {
        solve_either(input, false)
    }
}

/// Once the line fold has failed, later lines cannot revive it.
proof fn lemma_parse_lines_none_sticky(lines: Seq<Seq<u8>>, k: int)
    requires
        0 <= k <= lines.len(),
        parse_lines_spec(lines.take(k)) is None,
    ensures
        parse_lines_spec(lines) is None,
    decreases lines.len() - k,
{
    if k < lines.len() {
        assert(lines.take(k + 1).drop_last() =~= lines.take(k));
        lemma_parse_lines_none_sticky(lines, k + 1);
    } else {
        assert(lines.take(k) =~= lines);
    }
}

/// Once a move order has failed, later orders cannot revive the run.
proof fn lemma_apply_all_none_sticky(
    s0: Seq<Seq<u8>>,
    insts: Seq<Instruction>,
    k: int,
    reversed: bool,
)
    requires
        0 <= k <= insts.len(),
        apply_all(s0, insts.take(k), reversed) is None,
    ensures
        apply_all(s0, insts, reversed) is None,
    decreases insts.len() - k,
{
    if k < insts.len() {
        assert(insts.take(k + 1).drop_last() =~= insts.take(k));
        lemma_apply_all_none_sticky(s0, insts, k + 1, reversed);
    } else {
        assert(insts.take(k) =~= insts);
    }
}

/// Shared body of the two answers.
fn solve_either(input: &Input, reversed: bool) -> (r: Option<String>)
    ensures
        r is Some <==> answer_spec(views(input.stacks@), input.insts@, reversed) is Some,
        r is Some ==> r->0@ == (answer_spec(views(input.stacks@), input.insts@, reversed)
            ->0).map_values(|b: u8| b as char),
{
    let ghost s0 = views(input.stacks@);
    let mut stacks: Vec<Vec<u8>> = Vec::new();
    let mut c: usize = 0;
    while c < input.stacks.len()
        invariant
            c <= input.stacks@.len(),
            s0 == views(input.stacks@),
            stacks@.len() == c,
            forall|j: int| 0 <= j < c ==> (#[trigger] stacks@[j])@ == s0[j],
        decreases input.stacks@.len() - c,
    {
        let copy = crate::text::copy_range(input.stacks[c].as_slice(), 0, input.stacks[c].len());
        proof {
            assert(copy@ =~= s0[c as int]);
        }
        stacks.push(copy);
        c = c + 1;
    }
    proof {
        assert(views(stacks@) =~= s0);
    }
    let n_inst = input.insts.len();
    let mut i: usize = 0;
    while i < n_inst
        invariant
            i <= n_inst,
            n_inst == input.insts@.len(),
            s0 == views(input.stacks@),
            apply_all(s0, input.insts@.take(i as int), reversed) == Some(views(stacks@)),
        decreases n_inst - i,
    {
        proof {
            assert(input.insts@.take(i + 1).drop_last() =~= input.insts@.take(i as int));
            assert(input.insts@.take(i + 1).last() == input.insts@[i as int]);
        }
        let inst = input.insts[i];
        let nstacks = stacks.len();
        if inst.from >= nstacks || inst.to >= nstacks {
            proof {
                assert(apply_inst(views(stacks@), inst, reversed) is None);
                lemma_apply_all_none_sticky(s0, input.insts@, i + 1, reversed);
            }
            return None;
        }
        let flen = stacks[inst.from].len();
        if flen < inst.count {
            proof {
                assert(apply_inst(views(stacks@), inst, reversed) is None);
                lemma_apply_all_none_sticky(s0, input.insts@, i + 1, reversed);
            }
            return None;
        }
        let ghost cur = views(stacks@);
        if inst.from == inst.to {
            // the moved batch would land back where it came from: with
            // one-at-a-time moving the spec keeps the state outright, and a
            // whole-batch move onto itself restores the stack as it was
            proof {
                if !reversed {
                    let f = inst.from as int;
                    let k = inst.count as int;
                    let rest = cur[f].take(cur[f].len() - k);
                    let moved = cur[f].skip(cur[f].len() - k);
                    assert(rest + moved =~= cur[f]);
                    assert(apply_inst(cur, inst, reversed)->0 =~= cur);
                }
            }
        } else {
            let mut new_to = crate::text::copy_range(
                stacks[inst.to].as_slice(),
                0,
                stacks[inst.to].len(),
            );
            let ghost moved = cur[inst.from as int].skip(cur[inst.from as int].len() - inst.count);
            let ghost arrived = if reversed {
                moved.reverse()
            } else {
                moved
            };
            let mut j: usize = 0;
            while j < inst.count
                invariant
                    j <= inst.count,
                    inst.count <= flen,
                    flen == stacks@[inst.from as int]@.len(),
                    inst.from < stacks@.len(),
                    inst.to < stacks@.len(),
                    cur == views(stacks@),
                    moved == cur[inst.from as int].skip(flen - inst.count),
                    arrived == if reversed {
                        moved.reverse()
                    } else {
                        moved
                    },
                    new_to@ =~= cur[inst.to as int] + arrived.take(j as int),
                decreases inst.count - j,
            {
                let b = if reversed {
                    stacks[inst.from][flen - 1 - j]
                } else {
                    stacks[inst.from][flen - inst.count + j]
                };
                proof {
                    if reversed {
                        assert(arrived[j as int] == moved[moved.len() - 1 - j]);
                        assert(moved[moved.len() - 1 - j] == cur[inst.from as int][flen - 1 - j]);
                    } else {
                        assert(arrived[j as int] == cur[inst.from as int][flen - inst.count + j]);
                    }
                }
                new_to.push(b);
                proof {
                    assert(new_to@ =~= cur[inst.to as int] + arrived.take(j + 1));
                }
                j = j + 1;
            }
            proof {
                assert(arrived.take(inst.count as int) =~= arrived);
            }
            let mut new_from = crate::text::copy_range(
                stacks[inst.from].as_slice(),
                0,
                stacks[inst.from].len(),
            );
            new_from.truncate(flen - inst.count);
            proof {
                assert(new_from@ =~= cur[inst.from as int].take(flen - inst.count));
            }
            stacks[inst.to] = new_to;
            stacks[inst.from] = new_from;
            proof {
                assert(views(stacks@) =~= apply_inst(cur, inst, reversed)->0);
            }
        }
        i = i + 1;
    }
    proof {
        assert(input.insts@.take(n_inst as int) =~= input.insts@);
    }
    let ghost fin = views(stacks@);
    let ghost top_f = |st: Seq<u8>| if st.len() == 0 {
        Option::<u8>::None
    } else {
        Some(st.last())
    };
    proof {
        crate::text::lemma_map_opt(fin, top_f);
    }
    let mut word: Vec<u8> = Vec::new();
    let mut k: usize = 0;
    while k < stacks.len()
        invariant
            k <= stacks@.len(),
            fin == views(stacks@),
            s0 == views(input.stacks@),
            apply_all(s0, input.insts@, reversed) == Some(fin),
            top_f == (|st: Seq<u8>| if st.len() == 0 {
                Option::<u8>::None
            } else {
                Some(st.last())
            }),
            tops(fin) == map_opt(fin, top_f),
            word@.len() == k,
            forall|j: int| 0 <= j < k ==> top_f(#[trigger] fin[j]) is Some,
            forall|j: int| 0 <= j < k ==> (#[trigger] word@[j]) == top_f(fin[j])->0,
        decreases stacks@.len() - k,
    {
        let st = &stacks[k];
        if st.len() == 0 {
            proof {
                assert(stacks@[k as int]@ == fin[k as int]);
                assert(top_f(fin[k as int]) is None);
                crate::text::lemma_map_opt(fin, top_f);
                assert(tops(fin) is None);
                assert(answer_spec(views(input.stacks@), input.insts@, reversed) is None);
            }
            return None;
        }
        word.push(st[st.len() - 1]);
        proof {
            assert(stacks@[k as int]@ == fin[k as int]);
        }
        k = k + 1;
    }
    proof {
        crate::text::lemma_map_opt(fin, top_f);
        assert(word@ =~= map_opt(fin, top_f)->0);
    }
    let mut a: usize = 0;
    let wlen = word.len();
    while a < wlen
        invariant
            a <= wlen,
            wlen == word@.len(),
            word@ == tops(fin)->0,
            tops(fin) is Some,
            answer_spec(views(input.stacks@), input.insts@, reversed) == (if all_ascii(word@) {
                Some(word@)
            } else {
                Option::<Seq<u8>>::None
            }),
            forall|j: int| 0 <= j < a ==> #[trigger] word@[j] < 128,
        decreases wlen - a,
    {
        if word[a] >= 128 {
            proof {
                assert(!all_ascii(word@));
            }
            return None;
        }
        a = a + 1;
    }
    proof {
        assert(all_ascii(word@));
    }
    Some(ascii_to_string(word))
}

} // verus!
