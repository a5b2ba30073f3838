//! Rucksack item priorities.
//!
//! Each line is a rucksack; its two halves are the compartments. An item is
//! a letter scoring one through twenty-six for `a` to `z` and twenty-seven
//! through fifty-two for `A` to `Z`. The first answer sums, per line, the
//! priorities of the distinct items common to both halves; the second walks
//! the lines in groups of three and sums the priorities of the distinct
//! items common to the whole group.

use crate::text::{lines_of, lines_spec, views};
use vstd::prelude::*;
use vstd::string::StringSliceAdditionalSpecFns;

verus! {

pub struct Problem;

/// The priority of an item's code point: lowercase ASCII letters score one
/// through twenty-six; everything else is read against the uppercase range.
pub open spec fn priority(v: int) -> int {
    if 97 <= v <= 122 {
        v - 96
    } else {
        v - 38
    }
}

/// Priorities of the distinct bytes of `first` that also appear in `second`,
/// each counted once (at its first appearance in `first`).
pub open spec fn common_sum(first: Seq<u8>, second: Seq<u8>) -> int
    decreases first.len(),
{
    if first.len() == 0 {
        0
    } else {
        common_sum(first.drop_last(), second) + if second.contains(first.last())
            && !first.drop_last().contains(first.last()) {
            priority(first.last() as int)
        } else {
            0
        }
    }
}

/// One line's score: the common items of its two halves.
pub open spec fn line_sum(line: Seq<u8>) -> int {
    let half = line.len() as int / 2;
    common_sum(line.take(half), line.skip(half))
}

/// The first answer: every line's score summed.
pub open spec fn sum_first(lines: Seq<Seq<u8>>) -> int
    decreases lines.len(),
{
    if lines.len() == 0 {
        0
    } else {
        sum_first(lines.drop_last()) + line_sum(lines.last())
    }
}

/// The byte appears in every line of the group after the first.
pub open spec fn in_rest(chunk: Seq<Seq<u8>>, b: u8) -> bool {
    forall|l: int| 1 <= l < chunk.len() ==> (#[trigger] chunk[l]).contains(b)
}

/// A group's score: priorities of the distinct bytes of its first line that
/// appear in every other line of the group. The fold walks the first line's
/// first `k` bytes.
pub open spec fn chunk_sum_upto(chunk: Seq<Seq<u8>>, k: int) -> int
    decreases k,
{
    if k <= 0 || chunk.len() == 0 {
        0
    } else {
        chunk_sum_upto(chunk, k - 1) + if in_rest(chunk, chunk[0][k - 1]) && !chunk[0].take(
            k - 1,
        ).contains(chunk[0][k - 1]) {
            priority(chunk[0][k - 1] as int)
        } else {
            0
        }
    }
}

pub open spec fn chunk_sum(chunk: Seq<Seq<u8>>) -> int {
    if chunk.len() == 0 {
        0
    } else {
        chunk_sum_upto(chunk, chunk[0].len() as int)
    }
}

/// The second answer: the lines in groups of three (a last short group
/// allowed), each group's score summed.
pub open spec fn sum_second(lines: Seq<Seq<u8>>) -> int
    decreases lines.len(),
{
    if lines.len() == 0 {
        0
    } else {
        let c = if lines.len() >= 3 {
            3int
        } else {
            lines.len() as int
        };
        chunk_sum(lines.take(c)) + sum_second(lines.skip(c))
    }
}

/// Lines are few and short enough that every partial sum stays far inside
/// `i64`.
pub open spec fn lines_small(lines: Seq<Seq<u8>>) -> bool {
    &&& lines.len() <= 1000000
    &&& forall|j: int| 0 <= j < lines.len() ==> (#[trigger] lines[j]).len() <= 1000000
}

/// Priorities lie within a narrow band, so sums grow at most linearly.
proof fn lemma_common_sum_bound(first: Seq<u8>, second: Seq<u8>)
    ensures
        -217 * first.len() <= common_sum(first, second) <= 217 * first.len(),
    decreases first.len(),
{
    if first.len() > 0 {
        lemma_common_sum_bound(first.drop_last(), second);
    }
}

/// Whether `s` holds the byte `b`.
fn contains_byte(s: &[u8], b: u8) -> (r: bool)
    ensures
        r == s@.contains(b),
{
    let n = s.len();
    let mut i: usize = 0;
    while i < n
        invariant
            i <= n,
            n == s@.len(),
            forall|j: int| 0 <= j < i ==> s@[j] != b,
        decreases n - i,
    {
        if s[i] == b {
            return true;
        }
        i = i + 1;
    }
    proof {
        assert(!s@.contains(b));
    }
    false
}

/// The priority of one item, per `priority` of its code point.
pub fn char_to_priority(ch: char) -> (r: i64)
    ensures
        r == priority(ch as int),
{
    let v = ch as u32;
    if 97 <= v && v <= 122 {
        v as i64 - 96
    } else {
        v as i64 - 38
    }
}

/// One line's score over its UTF-8 bytes, per `line_sum`.
pub fn get_common_item_priorities(s: &str) -> (r: i64)
    requires
        s.spec_bytes().len() <= 1000000,
    ensures
        r == line_sum(s.spec_bytes()),
{
    let bytes = s.as_bytes();
    line_priorities(bytes)
}

/// One line's score, per `line_sum`.
fn line_priorities(bytes: &[u8]) -> (r: i64)
    requires
        bytes@.len() <= 1000000,
    ensures
        r == line_sum(bytes@),
{
    let n = bytes.len();
    let half = n / 2;
    let ghost first = bytes@.take(half as int);
    let ghost second = bytes@.skip(half as int);
    let mut acc: i64 = 0;
    let mut i: usize = 0;
    while i < half
        invariant
            i <= half,
            half == bytes@.len() as int / 2,
            n == bytes@.len(),
            n <= 1000000,
            first == bytes@.take(half as int),
            second == bytes@.skip(half as int),
            acc == common_sum(first.take(i as int), second),
            -217 * i <= acc <= 217 * i,
        decreases half - i,
    {
        proof {
            assert(first.take(i + 1).drop_last() =~= first.take(i as int));
            assert(first.take(i + 1).last() == bytes@[i as int]);
        }
        let b = bytes[i];
        let in_second = contains_byte_range(bytes, half, n, b);
        let seen = contains_byte_range(bytes, 0, i, b);
        proof {
            assert(second.contains(b) == in_second) by {
                if in_second {
                    let w = choose|w: int| half <= w < n && bytes@[w] == b;
                    assert(second[w - half] == b);
                } else if second.contains(b) {
                    let w = choose|w: int| 0 <= w < second.len() && second[w] == b;
                    assert(bytes@[half + w] == b);
                }
            }
            assert(first.take(i as int).contains(b) == seen) by {
                if seen {
                    let w = choose|w: int| 0 <= w < i && bytes@[w] == b;
                    assert(first.take(i as int)[w] == b);
                } else if first.take(i as int).contains(b) {
                    let w = choose|w: int|
                        0 <= w < first.take(i as int).len() && first.take(i as int)[w] == b;
                    assert(bytes@[w] == b);
                }
            }
        }
        if in_second && !seen {
            acc = acc + char_to_priority_byte(b);
        }
        i = i + 1;
    }
    proof {
        assert(first.take(half as int) =~= first);
    }
    acc
}

/// The priority of one item byte.
fn char_to_priority_byte(b: u8) -> (r: i64)
    ensures
        r == priority(b as int),
        -38 <= r <= 217,
{
    if 97 <= b && b <= 122 {
        b as i64 - 96
    } else {
        b as i64 - 38
    }
}

/// Whether `s` holds `b` between `a` (inclusive) and `b_end` (exclusive).
fn contains_byte_range(s: &[u8], a: usize, b_end: usize, b: u8) -> (r: bool)
    requires
        a <= b_end <= s@.len(),
    ensures
        r == exists|j: int| a <= j < b_end && s@[j] == b,
{
    let mut i: usize = a;
    while i < b_end
        invariant
            a <= i <= b_end <= s@.len(),
            forall|j: int| a <= j < i ==> s@[j] != b,
        decreases b_end - i,
    {
        if s[i] == b {
            return true;
        }
        i = i + 1;
    }
    false
}

impl Problem {
    pub fn get_day(&self) -> (r: i32)
        ensures
            r == 3,
    {
        3
    }

    /// The rucksack lines, as raw bytes.
    pub fn parse_input(&self, r: &[u8]) -> (res: Vec<Vec<u8>>)
        ensures
            views(res@) == lines_spec(r@),
    {
        lines_of(r)
    }

    /// The first answer, per `sum_first`.
    pub fn solve_first(&self, input: &Vec<Vec<u8>>) -> (r: i64)
        requires
            lines_small(views(input@)),
        ensures
            r == sum_first(views(input@)),
    {
        let ghost lines = views(input@);
        let n = input.len();
        let mut acc: i64 = 0;
        let mut i: usize = 0;
        while i < n
            invariant
                i <= n,
                n == input@.len(),
                lines == views(input@),
                lines_small(lines),
                acc == sum_first(lines.take(i as int)),
                -217000000 * i <= acc <= 217000000 * i,
            decreases n - i,
        {
            proof {
                assert(lines.take(i + 1).drop_last() =~= lines.take(i as int));
                assert(lines.take(i + 1).last() == lines[i as int]);
                assert(input@[i as int]@ == lines[i as int]);
                let line = lines[i as int];
                let half = line.len() as int / 2;
                lemma_common_sum_bound(line.take(half), line.skip(half));
                assert(line.take(half).len() <= 500000);
            }
            let v = line_priorities(input[i].as_slice());
            proof {
                assert(-217 * 500000 <= v <= 217 * 500000);
            }
            acc = acc + v;
            i = i + 1;
        }
        proof {
            assert(lines.take(n as int) =~= lines);
        }
        acc
    }

    /// The second answer, per `sum_second`.
    pub fn solve_second(&self, input: &Vec<Vec<u8>>) -> (r: i64)
        requires
            lines_small(views(input@)),
        ensures
            r == sum_second(views(input@)),
    {
        let ghost lines = views(input@);
        let n = input.len();
        let mut acc: i64 = 0;
        let mut i: usize = 0;
        proof {
            assert(lines.skip(0) =~= lines);
        }
        while i < n
            invariant
                i <= n,
                n == input@.len(),
                lines == views(input@),
                lines_small(lines),
                acc + sum_second(lines.skip(i as int)) == sum_second(lines),
                -217000000 * i <= acc <= 217000000 * i,
            decreases n - i,
        {
            let c: usize = if n - i >= 3 {
                3
            } else {
                n - i
            };
            let ghost rest = lines.skip(i as int);
            let ghost chunk = rest.take(c as int);
            proof {
                assert(rest.len() == n - i);
                assert(sum_second(rest) == chunk_sum(chunk) + sum_second(rest.skip(c as int)));
                assert(rest.skip(c as int) =~= lines.skip(i + c));
                assert(chunk[0] == lines[i as int]);
                assert(input@[i as int]@ == lines[i as int]);
            }
            let ghost line0 = chunk[0];
            let first_line = &input[i];
            let flen = first_line.len();
            let mut csum: i64 = 0;
            let mut k: usize = 0;
            while k < flen
                invariant
                    k <= flen,
                    i < n,
                    i + c <= n,
                    1 <= c <= 3,
                    n == input@.len(),
                    lines == views(input@),
                    lines_small(lines),
                    rest == lines.skip(i as int),
                    chunk == rest.take(c as int),
                    line0 == chunk[0],
                    line0 == input@[i as int]@,
                    first_line@ == line0,
                    flen == first_line@.len(),
                    flen <= 1000000,
                    csum == chunk_sum_upto(chunk, k as int),
                    -217 * k <= csum <= 217 * k,
                decreases flen - k,
            {
                let b = first_line[k];
                proof {
                    assert(line0[k as int] == b);
                }
                let mut all: bool = true;
                let mut l: usize = 1;
                while l < c
                    invariant
                        1 <= l <= c,
                        c <= 3,
                        i + c <= n,
                        i < n,
                        n == input@.len(),
                        lines == views(input@),
                        rest == lines.skip(i as int),
                        chunk == rest.take(c as int),
                        all <==> (forall|q: int| 1 <= q < l ==> (#[trigger] chunk[q]).contains(b)),
                    decreases c - l,
                {
                    proof {
                        assert(chunk[l as int] == lines[i + l]);
                        assert(input@[i + l]@ == lines[i + l]);
                    }
                    let line_l = &input[i + l];
                    let found = contains_byte(line_l.as_slice(), b);
                    if !found {
                        proof {
                            assert(!chunk[l as int].contains(b));
                        }
                        all = false;
                    }
                    l = l + 1;
                }
                let seen = contains_byte_range(first_line.as_slice(), 0, k, b);
                proof {
                    assert(in_rest(chunk, b) == all);
                    assert(line0.take(k as int).contains(b) == seen) by {
                        if seen {
                            let w = choose|w: int| 0 <= w < k && line0[w] == b;
                            assert(line0.take(k as int)[w] == b);
                        } else if line0.take(k as int).contains(b) {
                            let w = choose|w: int|
                                0 <= w < k && line0.take(k as int)[w] == b;
                            assert(line0[w] == b);
                        }
                    }
                }
                if all && !seen {
                    csum = csum + char_to_priority_byte(b);
                }
                k = k + 1;
            }
            proof {
                assert(csum == chunk_sum(chunk)) by {
                    assert(chunk.len() >= 1);
                }
                assert(-217000000 <= csum <= 217000000);
            }
            acc = acc + csum;
            i = i + c;
        }
        proof {
            assert(lines.skip(n as int) =~= Seq::<Seq<u8>>::empty());
        }
        acc
    }
}

} // verus!
