//! Overlapping assignment ranges.
//!
//! Each input line holds two (or more) dash-written inclusive ranges,
//! separated by commas. The first answer counts the lines whose first two
//! ranges have one containing the other; the second counts the lines whose
//! first two ranges overlap at all.

use crate::text::{
    lemma_map_opt, lines_of, lines_spec, map_opt, parse_i64, parse_i64_spec, split_pat,
    split_pat_exec, views,
};
use vstd::prelude::*;

verus! {

pub struct Problem;

/// An inclusive range of section numbers.
#[derive(Clone, Copy, PartialEq, Eq, Structural)]
pub struct Span {
    pub start: i64,
    pub end: i64,
}

/// `fst` contains the whole of `snd`.
pub open spec fn contains_spec(fst: Span, snd: Span) -> bool {
    fst.start <= snd.start && fst.end >= snd.end
}

/// `fst` and `snd` share at least one point (when both are nonempty).
pub open spec fn overlaps_spec(fst: Span, snd: Span) -> bool {
    fst.start <= snd.end && fst.end >= snd.start
}

/// One dash-written range: its first two dash-separated numbers.
pub open spec fn parse_span_spec(piece: Seq<u8>) -> Option<Span> {
    let ds = split_pat(piece, seq![45u8]);
    if ds.len() < 2 {
        None
    } else {
        match (parse_i64_spec(ds[0]), parse_i64_spec(ds[1])) {
            (Some(a), Some(b)) => Some(Span { start: a as i64, end: b as i64 }),
            _ => None,
        }
    }
}

/// One line: every comma-separated piece read as a range.
pub open spec fn parse_line_spec(line: Seq<u8>) -> Option<Seq<Span>> {
    map_opt(split_pat(line, seq![44u8]), |p: Seq<u8>| parse_span_spec(p))
}

/// The whole input, line by line.
pub open spec fn parse_input_spec(s: Seq<u8>) -> Option<Seq<Seq<Span>>> {
    map_opt(lines_spec(s), |l: Seq<u8>| parse_line_spec(l))
}

/// The views of a sequence of range rows.
pub open spec fn row_views(r: Seq<Vec<Span>>) -> Seq<Seq<Span>> {
    r.map_values(|v: Vec<Span>| v@)
}

/// Every row holds at least two ranges.
pub open spec fn rows_wf(s: Seq<Seq<Span>>) -> bool {
    forall|j: int| 0 <= j < s.len() ==> (#[trigger] s[j]).len() >= 2
}

/// How many rows satisfy `full`: containment one way or the other when
/// `full` is set, any overlap otherwise.
pub open spec fn count_rows(s: Seq<Seq<Span>>, full: bool) -> nat
    decreases s.len(),
{
    if s.len() == 0 {
        0
    } else {
        let row = s.last();
        let hit = if full {
            contains_spec(row[0], row[1]) || contains_spec(row[1], row[0])
        } else {
            overlaps_spec(row[0], row[1])
        };
        count_rows(s.drop_last(), full) + if hit {
            1nat
        } else {
            0nat
        }
    }
}

/// A count of rows never exceeds the number of rows.
pub proof fn lemma_count_rows_bound(s: Seq<Seq<Span>>, full: bool)
    ensures
        count_rows(s, full) <= s.len(),
    decreases s.len(),
{
    if s.len() > 0 {
        lemma_count_rows_bound(s.drop_last(), full);
    }
}

/// `fst` contains the whole of `snd`, per `contains_spec`.
pub fn contains(fst: &Span, snd: &Span) -> (r: bool)
    ensures
        r == contains_spec(*fst, *snd),
{
    fst.start <= snd.start && fst.end >= snd.end
}

/// `fst` and `snd` share at least one point, per `overlaps_spec`.
pub fn overlaps(fst: &Span, snd: &Span) -> (r: bool)
    ensures
        r == overlaps_spec(*fst, *snd),
{
    fst.start <= snd.end && fst.end >= snd.start
}

/// One dash-written range, per `parse_span_spec`.
fn parse_span(piece: &[u8]) -> (r: Option<Span>)
    ensures
        r is Some <==> parse_span_spec(piece@) is Some,
        r is Some ==> r->0 == parse_span_spec(piece@)->0,
{
    let dash: Vec<u8> = vec![45u8];
    proof {
        assert(dash@ =~= seq![45u8]);
    }
    let ds = split_pat_exec(piece, dash.as_slice());
    if ds.len() < 2 {
        return None;
    }
    proof {
        assert(ds@[0]@ == views(ds@)[0]);
        assert(ds@[1]@ == views(ds@)[1]);
    }
    let a = match parse_i64(ds[0].as_slice()) {
        None => {
            return None;
        },
        Some(v) => v,
    };
    let b = match parse_i64(ds[1].as_slice()) {
        None => {
            return None;
        },
        Some(v) => v,
    };
    Some(Span { start: a, end: b })
}

/// One line of ranges, per `parse_line_spec`.
fn parse_line(line: &[u8]) -> (r: Option<Vec<Span>>)
    ensures
        r is Some <==> parse_line_spec(line@) is Some,
        r is Some ==> r->0@ == parse_line_spec(line@)->0,
{
    let ghost f = |p: Seq<u8>| parse_span_spec(p);
    let comma: Vec<u8> = vec![44u8];
    proof {
        assert(comma@ =~= seq![44u8]);
    }
    let ps = split_pat_exec(line, comma.as_slice());
    let ghost piece_seq = views(ps@);
    proof {
        lemma_map_opt(piece_seq, f);
    }
    let mut row: Vec<Span> = Vec::new();
    let mut k: usize = 0;
    while k < ps.len()
        invariant
            k <= ps@.len(),
            piece_seq == views(ps@),
            f == (|p: Seq<u8>| parse_span_spec(p)),
            parse_line_spec(line@) == map_opt(piece_seq, f),
            row@.len() == k,
            forall|j: int| 0 <= j < k ==> f(#[trigger] piece_seq[j]) is Some,
            forall|j: int| 0 <= j < k ==> (#[trigger] row@[j]) == f(piece_seq[j])->0,
        decreases ps@.len() - k,
    {
        proof {
            assert(ps@[k as int]@ == piece_seq[k as int]);
        }
        match parse_span(ps[k].as_slice()) {
            None => {
                proof {
                    lemma_map_opt(piece_seq, f);
                }
                return None;
            },
            Some(span) => {
                row.push(span);
            },
        }
        k = k + 1;
    }
    proof {
        lemma_map_opt(piece_seq, f);
        assert(row@ =~= map_opt(piece_seq, f)->0);
    }
    Some(row)
}

impl Problem {
    pub fn get_day(&self) -> (r: i32)
        ensures
            r == 4,
    {
        4
    }

    /// The range rows of the input, per `parse_input_spec`; `None` on any
    /// malformed line.
    pub fn parse_input(&self, r: &[u8]) -> (res: Option<Vec<Vec<Span>>>)
        ensures
            res is Some <==> parse_input_spec(r@) is Some,
            res is Some ==> row_views(res->0@) == parse_input_spec(r@)->0,
    {
        let ghost f = |l: Seq<u8>| parse_line_spec(l);
        let ls = lines_of(r);
        let ghost line_seq = views(ls@);
        proof {
            lemma_map_opt(line_seq, f);
        }
        let mut rows: Vec<Vec<Span>> = Vec::new();
        let mut k: usize = 0;
        while k < ls.len()
            invariant
                k <= ls@.len(),
                line_seq == views(ls@),
                f == (|l: Seq<u8>| parse_line_spec(l)),
                parse_input_spec(r@) == map_opt(line_seq, f),
                rows@.len() == k,
                forall|j: int| 0 <= j < k ==> f(#[trigger] line_seq[j]) is Some,
                forall|j: int| 0 <= j < k ==> (#[trigger] rows@[j])@ == f(line_seq[j])->0,
            decreases ls@.len() - k,
        {
            proof {
                assert(ls@[k as int]@ == line_seq[k as int]);
            }
            match parse_line(ls[k].as_slice()) {
                None => {
                    proof {
                        lemma_map_opt(line_seq, f);
                    }
                    return None;
                },
                Some(row) => {
                    rows.push(row);
                },
            }
            k = k + 1;
        }
        proof {
            lemma_map_opt(line_seq, f);
            assert(row_views(rows@) =~= map_opt(line_seq, f)->0);
        }
        Some(rows)
    }

    /// How many rows have one of the first two ranges containing the other,
    /// per `count_rows` with full containment.
    pub fn solve_first(&self, input: &Vec<Vec<Span>>) -> (r: usize)
        requires
            rows_wf(row_views(input@)),
        ensures
            r as nat == count_rows(row_views(input@), true),
    {
        let ghost rows = row_views(input@);
        let n = input.len();
        let mut acc: usize = 0;
        let mut i: usize = 0;
        while i < n
            invariant
                i <= n,
                n == input@.len(),
                rows == row_views(input@),
                rows_wf(rows),
                acc as nat == count_rows(rows.take(i as int), true),
                acc <= i,
            decreases n - i,
        {
            proof {
                assert(rows.take(i + 1).drop_last() =~= rows.take(i as int));
                assert(rows.take(i + 1).last() == rows[i as int]);
                assert(rows[i as int] == input@[i as int]@);
                assert(rows[i as int].len() >= 2);
                lemma_count_rows_bound(rows.take(i as int), true);
            }
            let row = &input[i];
            let hit = contains(&row[0], &row[1]) || contains(&row[1], &row[0]);
            if hit {
                acc = acc + 1;
            }
            i = i + 1;
        }
        proof {
            assert(rows.take(n as int) =~= rows);
        }
        acc
    }

    /// How many rows have their first two ranges overlapping, per
    /// `count_rows` without full containment.
    pub fn solve_second(&self, input: &Vec<Vec<Span>>) -> (r: usize)
        requires
            rows_wf(row_views(input@)),
        ensures
            r as nat == count_rows(row_views(input@), false),
    {
        let ghost rows = row_views(input@);
        let n = input.len();
        let mut acc: usize = 0;
        let mut i: usize = 0;
        while i < n
            invariant
                i <= n,
                n == input@.len(),
                rows == row_views(input@),
                rows_wf(rows),
                acc as nat == count_rows(rows.take(i as int), false),
                acc <= i,
            decreases n - i,
        {
            proof {
                assert(rows.take(i + 1).drop_last() =~= rows.take(i as int));
                assert(rows.take(i + 1).last() == rows[i as int]);
                assert(rows[i as int] == input@[i as int]@);
                assert(rows[i as int].len() >= 2);
                lemma_count_rows_bound(rows.take(i as int), false);
            }
            let row = &input[i];
            let hit = overlaps(&row[0], &row[1]);
            if hit {
                acc = acc + 1;
            }
            i = i + 1;
        }
        proof {
            assert(rows.take(n as int) =~= rows);
        }
        acc
    }
}

} // verus!
