//! Start-of-message detection in a datastream.
//!
//! The answer is the position just past the first window of `window_size`
//! consecutive bytes that are all distinct: the number of leading windows
//! that still hold a duplicate, plus the window size. When no window is
//! distinct the count covers every window.

use vstd::prelude::*;

verus! {

pub struct Problem;

/// The window of `w` bytes starting at `i` holds two equal bytes.
pub open spec fn window_dup(s: Seq<u8>, i: int, w: int) -> bool {
    exists|p: int, q: int| i <= p < q < i + w && s[p] == s[q]
}

/// The first position at or after `i` whose window is free of duplicates,
/// or the position just past the last full window when none is.
pub open spec fn scan_from(s: Seq<u8>, w: int, i: int) -> int
    decreases s.len() - i,
{
    if i + w > s.len() || s.len() < i {
        i
    } else if !window_dup(s, i, w) {
        i
    } else {
        scan_from(s, w, i + 1)
    }
}

/// The answer for window size `w`: the first all-distinct window position
/// plus the window size.
pub open spec fn marker_spec(s: Seq<u8>, w: int) -> int {
    scan_from(s, w, 0) + w
}

impl Problem {
    pub fn get_day(&self) -> (r: i32)
        ensures
            r == 6,
    {
        6
    }

    /// The datastream itself: a copy of the raw bytes.
    pub fn parse_input(&self, r: &[u8]) -> (res: Vec<u8>)
        ensures
            res@ == r@,
    {
        let mut out: Vec<u8> = Vec::new();
        let n = r.len();
        let mut i: usize = 0;
        while i < n
            invariant
                i <= n,
                n == r@.len(),
                out@ =~= r@.take(i as int),
            decreases n - i,
        {
            out.push(r[i]);
            proof {
                assert(out@ =~= r@.take(i + 1));
            }
            i = i + 1;
        }
        proof {
            assert(out@ =~= r@);
        }
        out
    }

    /// The marker position for the given window size, per `marker_spec`.
    pub fn solve(&self, input: &Vec<u8>, window_size: usize) -> (r: usize)
        requires
            window_size >= 1,
            input@.len() + window_size <= usize::MAX,
        ensures
            r as int == marker_spec(input@, window_size as int),
    {
        let n = input.len();
        let w = window_size;
        let mut i: usize = 0;
        loop
            invariant
                i <= n,
                n == input@.len(),
                n + w <= usize::MAX,
                w >= 1,
                w == window_size,
                scan_from(input@, w as int, 0) == scan_from(input@, w as int, i as int),
            decreases n - i,
        {
            if i + w > n {
                return i + w;
            }
            if !window_has_dup(input, i, w) {
                return i + w;
            }
            proof {
                assert(scan_from(input@, w as int, i as int) == scan_from(
                    input@,
                    w as int,
                    i + 1,
                ));
            }
            i = i + 1;
        }
    }

    /// The answer with the four-byte start-of-packet window.
    pub fn solve_first(&self, input: &Vec<u8>) -> (r: usize)
        requires
            input@.len() + 4 <= usize::MAX,
        ensures
            r as int == marker_spec(input@, 4),
    {
        self.solve(input, 4)
    }

    /// The answer with the fourteen-byte start-of-message window.
    pub fn solve_second(&self, input: &Vec<u8>) -> (r: usize)
        requires
            input@.len() + 14 <= usize::MAX,
        ensures
            r as int == marker_spec(input@, 14),
    {
        self.solve(input, 14)
    }
}

/// Whether the window of `w` bytes at `i` holds a duplicate, per
/// `window_dup`.
fn window_has_dup(s: &Vec<u8>, i: usize, w: usize) -> (r: bool)
    requires
        i + w <= s@.len(),
    ensures
        r == window_dup(s@, i as int, w as int),
{
    let total = s.len();
    proof {
        assert(i + w <= total);
    }
    let end = i + w;
    let mut p: usize = i;
    while p < end
        invariant
            i <= p <= end,
            end == i + w,
            end <= s@.len(),
            forall|a: int, b: int| i <= a < b < i + w && a < p ==> s@[a] != s@[b],
        decreases end - p,
    {
        let mut q: usize = p + 1;
        while q < end
            invariant
                i <= p < q,
                end == i + w,
                p + 1 <= q <= end,
                end <= s@.len(),
                forall|b: int| p < b < q ==> s@[p as int] != s@[b],
            decreases end - q,
        {
            if s[p] == s[q] {
                return true;
            }
            q = q + 1;
        }
        p = p + 1;
    }
    false
}

} // verus!
