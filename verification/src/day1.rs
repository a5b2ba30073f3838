//! Calorie counting over blank-line-separated blocks.
//!
//! Each block of lines holds numbers; lines that do not read as a number are
//! skipped. A block's total is the sum of its readable lines. The first
//! answer is the largest block total; the second is the sum of the three
//! largest totals.

use crate::text::{lemma_map_opt, map_opt, parse_i64, parse_i64_spec, split_pat, split_pat_exec, views};
use vstd::prelude::*;

verus! {

pub struct Problem;

/// The total of one block: its readable lines summed in order, `None` when
/// a running sum leaves the `i64` range.
pub open spec fn block_sum(pieces: Seq<Seq<u8>>) -> Option<int>
    decreases pieces.len(),
{
    if pieces.len() == 0 {
        Some(0)
    } else {
        match block_sum(pieces.drop_last()) {
            None => None,
            Some(acc) => match parse_i64_spec(pieces.last()) {
                None => Some(acc),
                Some(v) => if i64::MIN <= acc + v <= i64::MAX {
                    Some(acc + v)
                } else {
                    None
                },
            },
        }
    }
}

/// Once a running sum has left the range, the whole block fails.
pub proof fn lemma_block_sum_none_sticky(pieces: Seq<Seq<u8>>, k: int)
    requires
        0 <= k <= pieces.len(),
        block_sum(pieces.take(k)) is None,
    ensures
        block_sum(pieces) is None,
    decreases pieces.len() - k,
{
    if k < pieces.len() {
        assert(pieces.take(k + 1).drop_last() =~= pieces.take(k));
        lemma_block_sum_none_sticky(pieces, k + 1);
    } else {
        assert(pieces.take(k) =~= pieces);
    }
}

/// The block totals of the whole input: blocks cut at blank lines, each
/// summed over its newline-separated lines.
pub open spec fn parse_input_spec(s: Seq<u8>) -> Option<Seq<i64>> {
    map_opt(
        split_pat(s, seq![10u8, 10u8]),
        |b: Seq<u8>| match block_sum(split_pat(b, seq![10u8])) {
            None => None,
            Some(v) => Some(v as i64),
        },
    )
}

/// The three largest values of `s`, in descending order; a sentinel below
/// every `i64` stands in while `s` has fewer than three entries.
pub open spec fn top_three(s: Seq<i64>) -> (int, int, int)
    decreases s.len(),
{
    if s.len() == 0 {
        (i64::MIN - 1, i64::MIN - 1, i64::MIN - 1)
    } else {
        let p = top_three(s.drop_last());
        let v = s.last() as int;
        if v >= p.0 {
            (v, p.0, p.1)
        } else if v >= p.1 {
            (p.0, v, p.1)
        } else if v >= p.2 {
            (p.0, p.1, v)
        } else {
            p
        }
    }
}

/// The sum of the three largest block totals.
pub open spec fn top_three_sum(s: Seq<i64>) -> int {
    top_three(s).0 + top_three(s).1 + top_three(s).2
}

/// One block's total, per `block_sum` over its lines.
fn sum_block(block: &[u8]) -> (r: Option<i64>)
    ensures
        ({
            let pieces = split_pat(block@, seq![10u8]);
            &&& r is Some <==> block_sum(pieces) is Some
            &&& r is Some ==> r->0 as int == block_sum(pieces)->0
        }),
{
    let nl: Vec<u8> = vec![10u8];
    proof {
        assert(nl@ =~= seq![10u8]);
    }
    let ps = split_pat_exec(block, nl.as_slice());
    let ghost pieces = views(ps@);
    let mut acc: i64 = 0;
    let mut k: usize = 0;
    while k < ps.len()
        invariant
            k <= ps@.len(),
            pieces == views(ps@),
            pieces == split_pat(block@, seq![10u8]),
            block_sum(pieces.take(k as int)) == Some(acc as int),
        decreases ps@.len() - k,
    {
        proof {
            assert(ps@[k as int]@ == pieces[k as int]);
            assert(pieces.take(k + 1).drop_last() =~= pieces.take(k as int));
            assert(pieces.take(k + 1).last() == pieces[k as int]);
        }
        match parse_i64(ps[k].as_slice()) {
            None => {},
            Some(v) => {
                match acc.checked_add(v) {
                    None => {
                        proof {
                            assert(block_sum(pieces.take(k + 1)) is None);
                            lemma_block_sum_none_sticky(pieces, k + 1);
                        }
                        return None;
                    },
                    Some(a) => {
                        acc = a;
                    },
                }
            },
        }
        k = k + 1;
    }
    proof {
        assert(pieces.take(ps@.len() as int) =~= pieces);
    }
    Some(acc)
}

impl Problem {
    pub fn get_day(&self) -> (r: i32)
        ensures
            r == 1,
    {
        1
    }

    /// The block totals, per `parse_input_spec`; `None` only when a running
    /// sum leaves the `i64` range. There is always at least one block.
    pub fn parse_input(&self, r: &[u8]) -> (res: Option<Vec<i64>>)
        ensures
            res is Some <==> parse_input_spec(r@) is Some,
            res is Some ==> res->0@ == parse_input_spec(r@)->0,
            res is Some ==> res->0@.len() >= 1,
    {
        let ghost f = |b: Seq<u8>| match block_sum(split_pat(b, seq![10u8])) {
            None => None,
            Some(v) => Some(v as i64),
        };
        let blank: Vec<u8> = vec![10u8, 10u8];
        proof {
            assert(blank@ =~= seq![10u8, 10u8]);
        }
        let blocks = split_pat_exec(r, blank.as_slice());
        let ghost block_seq = views(blocks@);
        proof {
            lemma_map_opt(block_seq, f);
            assert(block_seq.len() >= 1);
        }
        let mut sums: Vec<i64> = Vec::new();
        let mut k: usize = 0;
        while k < blocks.len()
            invariant
                k <= blocks@.len(),
                block_seq == views(blocks@),
                f == (|b: Seq<u8>| match block_sum(split_pat(b, seq![10u8])) {
                    None => None,
                    Some(v) => Some(v as i64),
                }),
                parse_input_spec(r@) == map_opt(block_seq, f),
                sums@.len() == k,
                forall|j: int| 0 <= j < k ==> f(#[trigger] block_seq[j]) is Some,
                forall|j: int| 0 <= j < k ==> (#[trigger] sums@[j]) == f(block_seq[j])->0,
            decreases blocks@.len() - k,
        {
            proof {
                assert(blocks@[k as int]@ == block_seq[k as int]);
            }
            match sum_block(blocks[k].as_slice()) {
                None => {
                    proof {
                        lemma_map_opt(block_seq, f);
                    }
                    return None;
                },
                Some(v) => {
                    sums.push(v);
                },
            }
            k = k + 1;
        }
        proof {
            lemma_map_opt(block_seq, f);
            assert(sums@ =~= map_opt(block_seq, f)->0);
            assert(sums@.len() == block_seq.len() >= 1);
        }
        Some(sums)
    }

    /// The largest block total: a value of the input that no other entry
    /// exceeds.
    pub fn solve_first(&self, input: &Vec<i64>) -> (r: i64)
        requires
            input@.len() >= 1,
        ensures
            input@.contains(r),
            forall|j: int| 0 <= j < input@.len() ==> input@[j] <= r,
    {
        let n = input.len();
        let mut best = input[0];
        let mut i: usize = 1;
        while i < n
            invariant
                1 <= i <= n,
                n == input@.len(),
                input@.contains(best),
                forall|j: int| 0 <= j < i ==> input@[j] <= best,
            decreases n - i,
        {
            let v = input[i];
            if v > best {
                best = v;
            }
            i = i + 1;
        }
        best
    }

    /// The sum of the three largest block totals, per `top_three_sum`.
    pub fn solve_second(&self, input: &Vec<i64>) -> (r: i64)
        requires
            input@.len() >= 3,
            i64::MIN <= top_three_sum(input@) <= i64::MAX,
        ensures
            r as int == top_three_sum(input@),
    {
        let n = input.len();
        let mut m1 = input[0];
        let mut m2 = input[1];
        let mut m3 = input[2];
        if m2 > m1 {
            let t = m1;
            m1 = m2;
            m2 = t;
        }
        if m3 > m2 {
            let t = m2;
            m2 = m3;
            m3 = t;
        }
        if m2 > m1 {
            let t = m1;
            m1 = m2;
            m2 = t;
        }
        proof {
            assert(input@.take(1).drop_last() =~= input@.take(0));
            assert(input@.take(2).drop_last() =~= input@.take(1));
            assert(input@.take(3).drop_last() =~= input@.take(2));
            assert(input@.take(1).last() == input@[0]);
            assert(input@.take(2).last() == input@[1]);
            assert(input@.take(3).last() == input@[2]);
            assert(top_three(input@.take(0)) == (
                i64::MIN - 1,
                i64::MIN - 1,
                i64::MIN - 1,
            ));
            assert(top_three(input@.take(1)) == (
                input@[0] as int,
                i64::MIN - 1,
                i64::MIN - 1,
            ));
            assert(top_three(input@.take(2)) == if input@[1] >= input@[0] {
                (input@[1] as int, input@[0] as int, i64::MIN - 1)
            } else {
                (input@[0] as int, input@[1] as int, i64::MIN - 1)
            });
            assert((m1 as int, m2 as int, m3 as int) == top_three(input@.take(3)));
        }
        let mut i: usize = 3;
        while i < n
            invariant
                3 <= i <= n,
                n == input@.len(),
                (m1 as int, m2 as int, m3 as int) == top_three(input@.take(i as int)),
            decreases n - i,
        {
            proof {
                assert(input@.take(i + 1).drop_last() =~= input@.take(i as int));
                assert(input@.take(i + 1).last() == input@[i as int]);
            }
            let v = input[i];
            if v >= m1 {
                m3 = m2;
                m2 = m1;
                m1 = v;
            } else if v >= m2 {
                m3 = m2;
                m2 = v;
            } else if v >= m3 {
                m3 = v;
            }
            i = i + 1;
        }
        proof {
            assert(input@.take(n as int) =~= input@);
        }
        let wide: i128 = m1 as i128 + m2 as i128 + m3 as i128;
        wide as i64
    }
}

} // verus!
