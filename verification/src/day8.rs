//! Tree visibility in a height grid.
//!
//! The input is a rectangle of digit heights, one row per line. For every
//! tree the four viewing counts say how many strictly lower trees stand in a
//! row before something blocks the view (or the edge is reached) toward each
//! side. A tree is visible from outside when one viewing count reaches the
//! edge; a tree's scenic score multiplies its four viewing distances, where
//! a blocked view also counts the blocking tree. The first answer counts the
//! visible trees; the second is the best scenic score.

use crate::text::{is_digit, lemma_map_opt, lines_of, lines_spec, map_opt, views};
use vstd::prelude::*;

verus! {

/// The four viewing counts of one tree: strictly lower trees toward each
/// side (first index decreasing, first index increasing, second index
/// decreasing, second index increasing).
#[derive(Clone, Copy, PartialEq, Eq, Structural)]
pub struct Visibility {
    pub left: usize,
    pub right: usize,
    pub up: usize,
    pub down: usize,
}

pub struct Problem;

/// The rows of a height grid.
pub open spec fn grid_views(g: Seq<Vec<u32>>) -> Seq<Seq<u32>> {
    g.map_values(|r: Vec<u32>| r@)
}

/// The rows of a visibility grid.
pub open spec fn vis_views(g: Seq<Vec<Visibility>>) -> Seq<Seq<Visibility>> {
    g.map_values(|r: Vec<Visibility>| r@)
}

/// A nonempty rectangle: every row as long as the first.
pub open spec fn rect<T>(g: Seq<Seq<T>>) -> bool {
    g.len() > 0 && forall|i: int| 0 <= i < g.len() ==> (#[trigger] g[i]).len() == g[0].len()
}

/// Lower trees running toward smaller first indices from `x`, looking at
/// column `y` under height `h`.
pub open spec fn look_lo_row(g: Seq<Seq<u32>>, x: int, y: int, h: u32) -> nat
    decreases x,
{
    if x <= 0 || x > g.len() {
        0
    } else if g[x - 1][y] < h {
        1 + look_lo_row(g, x - 1, y, h)
    } else {
        0
    }
}

/// Lower trees running toward larger first indices from `x`.
pub open spec fn look_hi_row(g: Seq<Seq<u32>>, x: int, y: int, h: u32) -> nat
    decreases g.len() - x,
{
    if x + 1 >= g.len() || x < 0 {
        0
    } else if g[x + 1][y] < h {
        1 + look_hi_row(g, x + 1, y, h)
    } else {
        0
    }
}

/// Lower trees running toward smaller second indices from `y` in row `x`.
pub open spec fn look_lo_col(g: Seq<Seq<u32>>, x: int, y: int, h: u32) -> nat
    decreases y,
{
    if y <= 0 || x < 0 || x >= g.len() || y > g[x].len() {
        0
    } else if g[x][y - 1] < h {
        1 + look_lo_col(g, x, y - 1, h)
    } else {
        0
    }
}

/// Lower trees running toward larger second indices from `y` in row `x`.
pub open spec fn look_hi_col(g: Seq<Seq<u32>>, x: int, y: int, h: u32) -> nat
    decreases (if 0 <= x < g.len() {
        g[x].len()
    } else {
        0
    }) - y,
{
    if x < 0 || x >= g.len() || y + 1 >= g[x].len() || y < 0 {
        0
    } else if g[x][y + 1] < h {
        1 + look_hi_col(g, x, y + 1, h)
    } else {
        0
    }
}

/// The four viewing counts of the tree at `(x, y)`.
pub open spec fn vis_spec(g: Seq<Seq<u32>>, x: int, y: int) -> (nat, nat, nat, nat) {
    let h = g[x][y];
    (look_lo_row(g, x, y, h), look_hi_row(g, x, y, h), look_lo_col(g, x, y, h), look_hi_col(
        g,
        x,
        y,
        h,
    ))
}

/// The visibility entry at `(x, y)` matches the height grid.
pub open spec fn vis_matches(g: Seq<Seq<u32>>, v: Visibility, x: int, y: int) -> bool {
    let s = vis_spec(g, x, y);
    v.left == s.0 && v.right == s.1 && v.up == s.2 && v.down == s.3
}

/// The whole visibility grid matches the height grid.
pub open spec fn vis_grid_matches(g: Seq<Seq<u32>>, vg: Seq<Seq<Visibility>>) -> bool {
    &&& vg.len() == g.len()
    &&& forall|x: int| 0 <= x < g.len() ==> (#[trigger] vg[x]).len() == g[x].len()
    &&& forall|x: int, y: int|
        0 <= x < g.len() && 0 <= y < g[x].len() ==> vis_matches(g, #[trigger] vg[x][y], x, y)
}

/// The nonempty lines of the input.
pub open spec fn keep_nonempty(lines: Seq<Seq<u8>>) -> Seq<Seq<u8>>
    decreases lines.len(),
{
    if lines.len() == 0 {
        Seq::empty()
    } else if lines.last().len() == 0 {
        keep_nonempty(lines.drop_last())
    } else {
        keep_nonempty(lines.drop_last()).push(lines.last())
    }
}

/// One row of digits.
pub open spec fn digit_row(line: Seq<u8>) -> Option<Seq<u32>> {
    map_opt(
        line,
        |b: u8| if is_digit(b) {
            Some((b - 48) as u32)
        } else {
            Option::<u32>::None
        },
    )
}

/// The height grid of the input: its nonempty lines, each a row of digits,
/// forming a nonempty rectangle.
pub open spec fn parse_grid_spec(s: Seq<u8>) -> Option<Seq<Seq<u32>>> {
    match map_opt(keep_nonempty(lines_spec(s)), |l: Seq<u8>| digit_row(l)) {
        None => None,
        Some(g) => if rect(g) {
            Some(g)
        } else {
            None
        },
    }
}

impl Problem {
    pub fn get_day(&self) -> (r: i32)
        ensures
            r == 8,
    {
        8
    }

    /// The visibility grid of the input's height grid; `None` on a non-digit
    /// byte or a ragged or empty grid.
    pub fn parse_input(&self, r: &[u8]) -> (res: Option<Vec<Vec<Visibility>>>)
        ensures
            res is Some <==> parse_grid_spec(r@) is Some,
            res is Some ==> vis_grid_matches(parse_grid_spec(r@)->0, vis_views(res->0@)),
            res is Some ==> rect(vis_views(res->0@)),
    {
        let ghost digit_f = |l: Seq<u8>| digit_row(l);
        let ls = lines_of(r);
        let mut rows: Vec<Vec<u8>> = Vec::new();
        let mut k: usize = 0;
        proof {
            assert(views(ls@).take(0) =~= Seq::<Seq<u8>>::empty());
            assert(keep_nonempty(views(ls@).take(0)) =~= views(rows@));
        }
        while k < ls.len()
            invariant
                k <= ls@.len(),
                views(ls@) == lines_spec(r@),
                views(rows@) == keep_nonempty(views(ls@).take(k as int)),
            decreases ls@.len() - k,
        {
            proof {
                assert(views(ls@).take(k + 1).drop_last() =~= views(ls@).take(k as int));
                assert(views(ls@).take(k + 1).last() == views(ls@)[k as int]);
                assert(ls@[k as int]@ == views(ls@)[k as int]);
            }
            if ls[k].len() > 0 {
                let row = crate::text::copy_range(ls[k].as_slice(), 0, ls[k].len());
                proof {
                    assert(row@ =~= views(ls@)[k as int]);
                }
                rows.push(row);
                proof {
                    assert(views(rows@) =~= views(rows@.drop_last()).push(row@));
                }
            }
            k = k + 1;
        }
        proof {
            assert(views(ls@).take(ls@.len() as int) =~= views(ls@));
        }
        let ghost kept = keep_nonempty(lines_spec(r@));
        proof {
            lemma_map_opt(kept, digit_f);
        }
        // read the digits
        let mut grid: Vec<Vec<u32>> = Vec::new();
        let mut i: usize = 0;
        while i < rows.len()
            invariant
                i <= rows@.len(),
                kept == views(rows@),
                digit_f == (|l: Seq<u8>| digit_row(l)),
                kept == keep_nonempty(lines_spec(r@)),
                grid@.len() == i,
                forall|j: int| 0 <= j < i ==> digit_f(#[trigger] kept[j]) is Some,
                forall|j: int| 0 <= j < i ==> (#[trigger] grid@[j])@ == digit_f(kept[j])->0,
            decreases rows@.len() - i,
        {
            proof {
                assert(rows@[i as int]@ == kept[i as int]);
            }
            let line = &rows[i];
            let mut row: Vec<u32> = Vec::new();
            let ghost bf = |b: u8| if is_digit(b) {
                Some((b - 48) as u32)
            } else {
                Option::<u32>::None
            };
            proof {
                lemma_map_opt(line@, bf);
            }
            let mut p: usize = 0;
            while p < line.len()
                invariant
                    p <= line@.len(),
                    line@ == kept[i as int],
                    0 <= i < kept.len(),
                    kept == keep_nonempty(lines_spec(r@)),
                    bf == (|b: u8| if is_digit(b) {
                        Some((b - 48) as u32)
                    } else {
                        Option::<u32>::None
                    }),
                    digit_f == (|l: Seq<u8>| digit_row(l)),
                    row@.len() == p,
                    forall|j: int| 0 <= j < p ==> bf(#[trigger] line@[j]) is Some,
                    forall|j: int| 0 <= j < p ==> (#[trigger] row@[j]) == bf(line@[j])->0,
                decreases line@.len() - p,
            {
                let b = line[p];
                if !(48 <= b && b <= 57) {
                    proof {
                        lemma_map_opt(line@, bf);
                        assert(digit_row(kept[i as int]) is None);
                        lemma_map_opt(kept, digit_f);
                    }
                    return None;
                }
                row.push((b - 48) as u32);
                p = p + 1;
            }
            proof {
                lemma_map_opt(line@, bf);
                assert(row@ =~= map_opt(line@, bf)->0);
                assert(digit_row(kept[i as int]) == Some(row@));
            }
            grid.push(row);
            i = i + 1;
        }
        proof {
            lemma_map_opt(kept, digit_f);
            assert(grid_views(grid@) =~= map_opt(kept, digit_f)->0);
            assert(parse_grid_spec(r@) == (if rect(grid_views(grid@)) {
                Some(grid_views(grid@))
            } else {
                Option::<Seq<Seq<u32>>>::None
            }));
        }
        // the rectangle check
        let rcount = grid.len();
        if rcount == 0 {
            proof {
                assert(!rect(grid_views(grid@)));
            }
            return None;
        }
        let wid = grid[0].len();
        let mut q: usize = 1;
        while q < rcount
            invariant
                1 <= q <= rcount,
                rcount == grid@.len(),
                wid == grid_views(grid@)[0].len(),
                parse_grid_spec(r@) == (if rect(grid_views(grid@)) {
                    Some(grid_views(grid@))
                } else {
                    Option::<Seq<Seq<u32>>>::None
                }),
                forall|j: int| 0 <= j < q ==> (#[trigger] grid_views(grid@)[j]).len() == wid,
            decreases rcount - q,
        {
            if grid[q].len() != wid {
                proof {
                    assert(grid_views(grid@)[q as int].len() != wid);
                    assert(!rect(grid_views(grid@)));
                }
                return None;
            }
            proof {
                assert(grid_views(grid@)[q as int].len() == wid);
            }
            q = q + 1;
        }
        proof {
            assert(rect(grid_views(grid@)));
            assert(parse_grid_spec(r@) == Some(grid_views(grid@)));
        }
        Some(calculate_visibility(&grid))
    }

    /// How many trees are visible from outside the grid, per `count_visible`.
    pub fn solve_first(&self, input: &Vec<Vec<Visibility>>) -> (r: usize)
        requires
            rect(vis_views(input@)),
            vis_views(input@).len() * vis_views(input@)[0].len() <= usize::MAX,
        ensures
            r as nat == count_visible(vis_views(input@)),
    {
        let ghost vg = vis_views(input@);
        let width = input.len();
        let height = input[0].len();
        let mut acc: usize = 0;
        let mut x: usize = 0;
        while x < width
            invariant
                x <= width,
                width == vg.len(),
                vg == vis_views(input@),
                rect(vg),
                height == vg[0].len(),
                width * height <= usize::MAX,
                acc as nat == count_visible_upto(vg, x as int),
                acc <= x * height,
            decreases width - x,
        {
            proof {
                lemma_count_row_bound(vg, x as int, height as int);
                assert(vg[x as int].len() == height);
                assert(x * height + height <= width * height) by (nonlinear_arith)
                    requires
                        0 <= x < width,
                        height >= 0,
                ;
                assert((x + 1) * height == x * height + height) by (nonlinear_arith);
            }
            let mut rc: usize = 0;
            let mut y: usize = 0;
            while y < height
                invariant
                    y <= height,
                    x < width,
                    width == vg.len(),
                    vg == vis_views(input@),
                    rect(vg),
                    height == vg[0].len(),
                    height == vg[x as int].len(),
                    rc as nat == count_row_upto(vg, x as int, y as int),
                    rc <= y,
                decreases height - y,
            {
                proof {
                    lemma_count_row_bound(vg, x as int, y as int);
                    assert(input@[x as int]@ == vg[x as int]);
                }
                let v = &input[x][y];
                proof {
                    assert(vg[x as int][y as int] == *v);
                }
                if v.left == x || v.right == width - x - 1 || v.up == y || v.down == height - y
                    - 1 {
                    rc = rc + 1;
                }
                y = y + 1;
            }
            acc = acc + rc;
            x = x + 1;
        }
        acc
    }

    /// The best scenic score in the grid, per `best_score`. The four capped
    /// viewing distances each stay under two to the sixteenth, so on a
    /// sixty-four-bit target their product always fits.
    pub fn solve_second(&self, input: &Vec<Vec<Visibility>>) -> (r: usize)
        requires
            rect(vis_views(input@)),
            vis_views(input@).len() <= 65536,
            vis_views(input@)[0].len() <= 65536,
            usize::MAX >= 0xffff_ffff_ffff_ffff,
        ensures
            r as nat == best_score(vis_views(input@)),
    {
        let ghost vg = vis_views(input@);
        let width = input.len();
        let height = input[0].len();
        let mut best: usize = 0;
        let mut x: usize = 0;
        proof {
            assert(best_upto(vg, 0) == 0);
        }
        while x < width
            invariant
                x <= width,
                width == vg.len(),
                vg == vis_views(input@),
                rect(vg),
                height == vg[0].len(),
                width <= 65536,
                height <= 65536,
                usize::MAX >= 0xffff_ffff_ffff_ffff,
                best as nat == best_upto(vg, x as int),
            decreases width - x,
        {
            let mut y: usize = 0;
            while y < height
                invariant
                    y <= height,
                    x < width,
                    width == vg.len(),
                    vg == vis_views(input@),
                    rect(vg),
                    height == vg[0].len(),
                    height == vg[x as int].len(),
                    width <= 65536,
                    height <= 65536,
                    usize::MAX >= 0xffff_ffff_ffff_ffff,
                    best as nat == max_nat(best_upto(vg, x as int), best_row_upto(
                        vg,
                        x as int,
                        y as int,
                    )),
                decreases height - y,
            {
                proof {
                    assert(input@[x as int]@ == vg[x as int]);
                }
                let v = &input[x][y];
                proof {
                    assert(vg[x as int][y as int] == *v);
                }
                let left: usize = if v.left >= x {
                    x
                } else {
                    v.left + 1
                };
                let right: usize = if v.right >= width - x - 1 {
                    width - x - 1
                } else {
                    v.right + 1
                };
                let up: usize = if v.up >= y {
                    y
                } else {
                    v.up + 1
                };
                let down: usize = if v.down >= height - y - 1 {
                    height - y - 1
                } else {
                    v.down + 1
                };
                proof {
                    assert(left < 65536 && right < 65536 && up < 65536 && down < 65536);
                    assert(left * right < 65536 * 65536) by (nonlinear_arith)
                        requires
                            0 <= left < 65536,
                            0 <= right < 65536,
                    ;
                    assert(left * right * up < 65536 * 65536 * 65536) by (nonlinear_arith)
                        requires
                            0 <= left * right < 65536 * 65536,
                            0 <= up < 65536,
                    ;
                    assert(left * right * up * down < 65536 * 65536 * 65536 * 65536)
                        by (nonlinear_arith)
                        requires
                            0 <= left * right * up < 65536 * 65536 * 65536,
                            0 <= down < 65536,
                    ;
                }
                let score = left * right * up * down;
                proof {
                    assert(score as nat == score_spec(vg, x as int, y as int, width as int,
                        height as int));
                }
                if score > best {
                    best = score;
                }
                y = y + 1;
            }
            x = x + 1;
        }
        best
    }
}

/// The tree at `(x, y)` can be seen from outside: some viewing count runs
/// all the way to an edge.
pub open spec fn visible_at(vg: Seq<Seq<Visibility>>, x: int, y: int) -> bool {
    let v = vg[x][y];
    let w = vg.len() as int;
    let h = vg[0].len() as int;
    v.left == x || v.right == w - x - 1 || v.up == y || v.down == h - y - 1
}

/// Visible trees in row `x` among the first `y` columns.
pub open spec fn count_row_upto(vg: Seq<Seq<Visibility>>, x: int, y: int) -> nat
    decreases y,
{
    if y <= 0 {
        0
    } else {
        count_row_upto(vg, x, y - 1) + if visible_at(vg, x, y - 1) {
            1nat
        } else {
            0nat
        }
    }
}

/// Visible trees among the first `x` rows.
pub open spec fn count_visible_upto(vg: Seq<Seq<Visibility>>, x: int) -> nat
    decreases x,
{
    if x <= 0 {
        0
    } else {
        count_visible_upto(vg, x - 1) + count_row_upto(vg, x - 1, vg[x - 1].len() as int)
    }
}

/// How many trees are visible from outside the grid.
pub open spec fn count_visible(vg: Seq<Seq<Visibility>>) -> nat {
    count_visible_upto(vg, vg.len() as int)
}

proof fn lemma_count_row_bound(vg: Seq<Seq<Visibility>>, x: int, y: int)
    requires
        y >= 0,
    ensures
        count_row_upto(vg, x, y) <= y,
    decreases y,
{
    if y > 0 {
        lemma_count_row_bound(vg, x, y - 1);
    }
}

/// The scenic score of the tree at `(x, y)`: each viewing distance counts
/// the blocking tree too, capped at the edge.
pub open spec fn score_spec(vg: Seq<Seq<Visibility>>, x: int, y: int, w: int, h: int) -> nat {
    let v = vg[x][y];
    let left = min_int(v.left + 1, x);
    let right = min_int(v.right + 1, w - x - 1);
    let up = min_int(v.up + 1, y);
    let down = min_int(v.down + 1, h - y - 1);
    (left * right * up * down) as nat
}

pub open spec fn min_int(a: int, b: int) -> int {
    if a <= b {
        a
    } else {
        b
    }
}

pub open spec fn max_nat(a: nat, b: nat) -> nat {
    if a >= b {
        a
    } else {
        b
    }
}

/// The best score in row `x` among the first `y` columns.
pub open spec fn best_row_upto(vg: Seq<Seq<Visibility>>, x: int, y: int) -> nat
    decreases y,
{
    if y <= 0 {
        0
    } else {
        max_nat(
            best_row_upto(vg, x, y - 1),
            score_spec(vg, x, y - 1, vg.len() as int, vg[0].len() as int),
        )
    }
}

/// The best score among the first `x` rows.
pub open spec fn best_upto(vg: Seq<Seq<Visibility>>, x: int) -> nat
    decreases x,
{
    if x <= 0 {
        0
    } else {
        max_nat(best_upto(vg, x - 1), best_row_upto(vg, x - 1, vg[x - 1].len() as int))
    }
}

/// The best scenic score in the grid.
pub open spec fn best_score(vg: Seq<Seq<Visibility>>) -> nat {
    best_upto(vg, vg.len() as int)
}

/// The four viewing counts of one tree, per `vis_spec`.
pub fn calculate_visibility_position(grid: &Vec<Vec<u32>>, position: (usize, usize)) -> (r:
    Visibility)
    requires
        rect(grid_views(grid@)),
        position.0 < grid@.len(),
        position.1 < grid_views(grid@)[0].len(),
    ensures
        vis_matches(grid_views(grid@), r, position.0 as int, position.1 as int),
{
    let ghost g = grid_views(grid@);
    let (x, y) = position;
    proof {
        assert(grid@[x as int]@ == g[x as int]);
    }
    let h = grid[x][y];
    let left = scan_lo_row(grid, x, y, h);
    let right = scan_hi_row(grid, x, y, h);
    let up = scan_lo_col(grid, x, y, h);
    let down = scan_hi_col(grid, x, y, h);
    Visibility { left, right, up, down }
}

/// Lower trees toward smaller first indices, per `look_lo_row`.
fn scan_lo_row(grid: &Vec<Vec<u32>>, x: usize, y: usize, h: u32) -> (r: usize)
    requires
        rect(grid_views(grid@)),
        x < grid@.len(),
        y < grid_views(grid@)[0].len(),
    ensures
        r as nat == look_lo_row(grid_views(grid@), x as int, y as int, h),
{
    let ghost g = grid_views(grid@);
    let mut left: usize = 0;
    loop
        invariant
            left <= x,
            x < grid@.len(),
            g == grid_views(grid@),
            rect(g),
            y < g[0].len(),
            look_lo_row(g, x as int, y as int, h) == left + look_lo_row(g, x - left, y as int, h),
        decreases x - left,
    {
        if x - left == 0 {
            proof {
                assert(look_lo_row(g, x - left, y as int, h) == 0);
            }
            return left;
        }
        proof {
            assert(grid@[x - left - 1]@ == g[x - left - 1]);
        }
        if !(grid[x - left - 1][y] < h) {
            proof {
                assert(look_lo_row(g, x - left, y as int, h) == 0);
            }
            return left;
        }
        proof {
            assert(look_lo_row(g, x - left, y as int, h) == 1 + look_lo_row(
                g,
                x - left - 1,
                y as int,
                h,
            ));
        }
        left = left + 1;
    }
}

/// Lower trees toward larger first indices, per `look_hi_row`.
fn scan_hi_row(grid: &Vec<Vec<u32>>, x: usize, y: usize, h: u32) -> (r: usize)
    requires
        rect(grid_views(grid@)),
        x < grid@.len(),
        y < grid_views(grid@)[0].len(),
    ensures
        r as nat == look_hi_row(grid_views(grid@), x as int, y as int, h),
{
    let ghost g = grid_views(grid@);
    let width = grid.len();
    let mut right: usize = 0;
    loop
        invariant
            right <= grid@.len() - x - 1 || right == 0,
            x + right <= grid@.len(),
            x < grid@.len(),
            width == grid@.len(),
            g == grid_views(grid@),
            rect(g),
            y < g[0].len(),
            look_hi_row(g, x as int, y as int, h) == right + look_hi_row(g, x + right, y as int, h),
        decreases grid@.len() - x - right,
    {
        if x + right >= width - 1 {
            proof {
                assert(look_hi_row(g, x + right, y as int, h) == 0);
            }
            return right;
        }
        proof {
            assert(grid@[x + right + 1]@ == g[x + right + 1]);
        }
        if !(grid[x + right + 1][y] < h) {
            proof {
                assert(look_hi_row(g, x + right, y as int, h) == 0);
            }
            return right;
        }
        proof {
            assert(look_hi_row(g, x + right, y as int, h) == 1 + look_hi_row(
                g,
                x + right + 1,
                y as int,
                h,
            ));
        }
        right = right + 1;
    }
}

/// Lower trees toward smaller second indices, per `look_lo_col`.
fn scan_lo_col(grid: &Vec<Vec<u32>>, x: usize, y: usize, h: u32) -> (r: usize)
    requires
        rect(grid_views(grid@)),
        x < grid@.len(),
        y < grid_views(grid@)[0].len(),
    ensures
        r as nat == look_lo_col(grid_views(grid@), x as int, y as int, h),
{
    let ghost g = grid_views(grid@);
    let mut up: usize = 0;
    loop
        invariant
            up <= y,
            x < grid@.len(),
            g == grid_views(grid@),
            rect(g),
            y < g[0].len(),
            y < g[x as int].len(),
            look_lo_col(g, x as int, y as int, h) == up + look_lo_col(g, x as int, y - up, h),
        decreases y - up,
    {
        if y - up == 0 {
            proof {
                assert(look_lo_col(g, x as int, y - up, h) == 0);
            }
            return up;
        }
        proof {
            assert(grid@[x as int]@ == g[x as int]);
        }
        if !(grid[x][y - up - 1] < h) {
            proof {
                assert(look_lo_col(g, x as int, y - up, h) == 0);
            }
            return up;
        }
        proof {
            assert(look_lo_col(g, x as int, y - up, h) == 1 + look_lo_col(
                g,
                x as int,
                y - up - 1,
                h,
            ));
        }
        up = up + 1;
    }
}

/// Lower trees toward larger second indices, per `look_hi_col`.
fn scan_hi_col(grid: &Vec<Vec<u32>>, x: usize, y: usize, h: u32) -> (r: usize)
    requires
        rect(grid_views(grid@)),
        x < grid@.len(),
        y < grid_views(grid@)[0].len(),
    ensures
        r as nat == look_hi_col(grid_views(grid@), x as int, y as int, h),
{
    let ghost g = grid_views(grid@);
    proof {
        assert(grid@[x as int]@ == g[x as int]);
    }
    let height = grid[x].len();
    let mut down: usize = 0;
    loop
        invariant
            y + down <= g[x as int].len(),
            x < grid@.len(),
            height == g[x as int].len(),
            g == grid_views(grid@),
            rect(g),
            y < g[0].len(),
            y < g[x as int].len(),
            look_hi_col(g, x as int, y as int, h) == down + look_hi_col(g, x as int, y + down, h),
        decreases g[x as int].len() - y - down,
    {
        if y + down >= height - 1 {
            proof {
                assert(look_hi_col(g, x as int, y + down, h) == 0);
            }
            return down;
        }
        proof {
            assert(grid@[x as int]@ == g[x as int]);
        }
        if !(grid[x][y + down + 1] < h) {
            proof {
                assert(look_hi_col(g, x as int, y + down, h) == 0);
            }
            return down;
        }
        proof {
            assert(look_hi_col(g, x as int, y + down, h) == 1 + look_hi_col(
                g,
                x as int,
                y + down + 1,
                h,
            ));
        }
        down = down + 1;
    }
}

/// The visibility grid of a height grid, per `vis_grid_matches`.
pub fn calculate_visibility(grid: &Vec<Vec<u32>>) -> (r: Vec<Vec<Visibility>>)
    requires
        rect(grid_views(grid@)),
    ensures
        vis_grid_matches(grid_views(grid@), vis_views(r@)),
        rect(vis_views(r@)),
{
    let ghost g = grid_views(grid@);
    let width = grid.len();
    let height = grid[0].len();
    let mut out: Vec<Vec<Visibility>> = Vec::new();
    let mut x: usize = 0;
    while x < width
        invariant
            x <= width,
            width == grid@.len(),
            g == grid_views(grid@),
            rect(g),
            height == g[0].len(),
            out@.len() == x,
            forall|i: int| 0 <= i < x ==> (#[trigger] out@[i])@.len() == g[i].len(),
            forall|i: int, j: int|
                0 <= i < x && 0 <= j < g[i].len() ==> vis_matches(g, #[trigger] out@[i]@[j], i, j),
        decreases width - x,
    {
        let mut row: Vec<Visibility> = Vec::new();
        let mut y: usize = 0;
        while y < height
            invariant
                y <= height,
                x < width,
                width == grid@.len(),
                g == grid_views(grid@),
                rect(g),
                height == g[0].len(),
                row@.len() == y,
                forall|j: int| 0 <= j < y ==> vis_matches(g, #[trigger] row@[j], x as int, j),
            decreases height - y,
        {
            let v = calculate_visibility_position(grid, (x, y));
            row.push(v);
            y = y + 1;
        }
        out.push(row);
        x = x + 1;
    }
    proof {
        assert forall|i: int| 0 <= i < g.len() implies (#[trigger] vis_views(out@)[i]).len()
            == g[i].len() by {
            assert(vis_views(out@)[i] == out@[i]@);
        }
        assert forall|i: int, j: int|
            0 <= i < g.len() && 0 <= j < g[i].len() implies vis_matches(
            g,
            #[trigger] vis_views(out@)[i][j],
            i,
            j,
        ) by {
            assert(vis_views(out@)[i] == out@[i]@);
        }
    }
    out
}

} // verus!
