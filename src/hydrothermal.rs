// Hydrothermal venture: walking lines of vents on a grid and counting overlaps.
use vstd::prelude::*;

use crate::array::Array2D;
use crate::parse::{
    chars_of, decimal, decimal_in, line_ranges, lines, pattern_ranges, piece_ranges, pieces,
    split_pattern, sub_chars,
};

verus! {

/// The side of the ocean floor grid.
pub const WIDTH: usize = 1000;

/// A line of vents from `(ax, ay)` to `(bx, by)`.
#[derive(Clone, Copy, Debug, PartialEq, Eq, Structural)]
pub struct Line {
    pub ax: usize,
    pub ay: usize,
    pub bx: usize,
    pub by: usize,
}

pub open spec fn arrow() -> Seq<char> {
    seq![' ', '-', '>', ' ']
}

/// The line that `text` describes, `x1,y1 -> x2,y2`, when it does.
pub open spec fn line_of(text: Seq<char>) -> Option<Line> {
    let parts = split_pattern(text, arrow(), 0, 0);
    if parts.len() < 2 {
        None
    } else {
        let a = pieces(parts[0], ',');
        let b = pieces(parts[1], ',');
        if a.len() < 2 || b.len() < 2 {
            None
        } else {
            match (
                decimal(a[0], usize::MAX as int),
                decimal(a[1], usize::MAX as int),
                decimal(b[0], usize::MAX as int),
                decimal(b[1], usize::MAX as int),
            ) {
                (Some(ax), Some(ay), Some(bx), Some(by)) => Some(
                    Line { ax: ax as usize, ay: ay as usize, bx: bx as usize, by: by as usize },
                ),
                _ => None,
            }
        }
    }
}

/// The lines of `ls`, when every one describes a line.
pub open spec fn lines_of(ls: Seq<Seq<char>>) -> Option<Seq<Line>>
    decreases ls.len(),
{
    if ls.len() == 0 {
        Some(Seq::empty())
    } else {
        match (lines_of(ls.drop_last()), line_of(ls.last())) {
            (Some(v), Some(l)) => Some(v.push(l)),
            _ => None,
        }
    }
}

/// Reads one line of vents, `x1,y1 -> x2,y2`.
fn parse_input_line(line: &Vec<char>) -> (r: Option<Line>)
    ensures
        r == line_of(line@),
{
    let arrow_chars = [' ', '-', '>', ' '];
    assert(arrow_chars@ =~= arrow());
    let parts = pattern_ranges(line, &arrow_chars);
    if parts.len() < 2 {
        return None;
    }
    let first = sub_chars(line, parts[0]);
    let second = sub_chars(line, parts[1]);
    let a = piece_ranges(&first, ',');
    let b = piece_ranges(&second, ',');
    if a.len() < 2 || b.len() < 2 {
        return None;
    }
    let ax = decimal_in(&first, a[0].0, a[0].1, usize::MAX as u64);
    let ay = decimal_in(&first, a[1].0, a[1].1, usize::MAX as u64);
    let bx = decimal_in(&second, b[0].0, b[0].1, usize::MAX as u64);
    let by = decimal_in(&second, b[1].0, b[1].1, usize::MAX as u64);
    match (ax, ay, bx, by) {
        (Some(ax), Some(ay), Some(bx), Some(by)) => Some(
            Line { ax: ax as usize, ay: ay as usize, bx: bx as usize, by: by as usize },
        ),
        _ => None,
    }
}

proof fn lemma_lines_of_prefix(ls: Seq<Seq<char>>, k: int)
    requires
        0 <= k <= ls.len(),
        lines_of(ls.take(k)) is None,
    ensures
        lines_of(ls) is None,
    decreases ls.len() - k,
{
    if k < ls.len() {
        assert(ls.take(k + 1).drop_last() =~= ls.take(k));
        lemma_lines_of_prefix(ls, k + 1);
    } else {
        assert(ls.take(k) =~= ls);
    }
}

/// Reads one line of vents per line of `input`; `None` when a line does not describe one.
pub fn parse_input(input: &str) -> (r: Option<Vec<Line>>)
    ensures
        r is Some <==> lines_of(lines(input@)) is Some,
        r matches Some(v) ==> v@ == lines_of(lines(input@)).unwrap(),
{
    let chars = chars_of(input);
    let ranges = line_ranges(&chars);
    let ghost ls = lines(chars@);
    let mut out: Vec<Line> = Vec::new();
    let mut k: usize = 0;
    assert(ls.take(0) =~= Seq::<Seq<char>>::empty());
    while k < ranges.len()
        invariant
            chars@ == input@,
            ls == lines(chars@),
            ranges@.len() == ls.len(),
            forall|j: int|
                0 <= j < ranges@.len() ==> (#[trigger] ranges@[j]).0 <= ranges@[j].1
                    <= chars@.len(),
            forall|j: int|
                0 <= j < ranges@.len() ==> chars@.subrange(ranges@[j].0 as int, ranges@[j].1 as int)
                    == #[trigger] ls[j],
            k <= ranges@.len(),
            lines_of(ls.take(k as int)) == Some(out@),
        decreases ranges@.len() - k,
    {
        assert(ls.take(k + 1).drop_last() =~= ls.take(k as int));
        assert(ls.take(k + 1).last() == ls[k as int]);
        let line = sub_chars(&chars, ranges[k]);
        match parse_input_line(&line) {
            Some(l) => {
                out.push(l);
            },
            None => {
                proof {
                    lemma_lines_of_prefix(ls, k + 1);
                }
                return None;
            },
        }
        k = k + 1;
    }
    assert(ls.take(k as int) =~= ls);
    Some(out)
}

/// One step from `n` toward `m`.
pub open spec fn step_toward(n: int, m: int) -> int {
    if n < m {
        n + 1
    } else if n == m {
        n
    } else {
        n - 1
    }
}

/// The coordinate `k` steps from `n` toward `m`, stopping at `m`.
pub open spec fn pos(n: int, m: int, k: int) -> int {
    if n <= m {
        if n + k <= m {
            n + k
        } else {
            m
        }
    } else {
        if n - k >= m {
            n - k
        } else {
            m
        }
    }
}

pub open spec fn dist(a: int, b: int) -> int {
    if a <= b {
        b - a
    } else {
        a - b
    }
}

/// The number of steps the walk along `l` takes from one end to the other.
pub open spec fn steps(l: Line) -> int {
    let dx = dist(l.ax as int, l.bx as int);
    let dy = dist(l.ay as int, l.by as int);
    if dx >= dy {
        dx
    } else {
        dy
    }
}

/// The point the walk along `l` reaches after `k` steps.
pub open spec fn point(l: Line, k: int) -> (int, int) {
    (pos(l.ax as int, l.bx as int, k), pos(l.ay as int, l.by as int, k))
}

/// How many of the first `k` points of the walk along `l` are `(x, y)`.
pub open spec fn visits(l: Line, x: int, y: int, k: int) -> nat
    decreases k,
{
    if k <= 0 {
        0
    } else {
        visits(l, x, y, k - 1) + (if point(l, k - 1) == (x, y) {
            1nat
        } else {
            0nat
        })
    }
}

pub open spec fn orthogonal(l: Line) -> bool {
    l.ax == l.bx || l.ay == l.by
}

/// Whether `l` is walked: always, or only when orthogonal if `filter` holds.
pub open spec fn counted(l: Line, filter: bool) -> bool {
    !filter || orthogonal(l)
}

/// How often the walks of the counted lines among the first `n` pass `(x, y)`.
pub open spec fn coverage(ls: Seq<Line>, filter: bool, n: int, x: int, y: int) -> nat
    decreases n,
{
    if n <= 0 {
        0
    } else {
        coverage(ls, filter, n - 1, x, y) + (if counted(ls[n - 1], filter) {
            visits(ls[n - 1], x, y, steps(ls[n - 1]) + 1)
        } else {
            0nat
        })
    }
}

/// Every counted line lies inside the grid.
pub open spec fn inside(ls: Seq<Line>, filter: bool) -> bool {
    forall|i: int|
        0 <= i < ls.len() && #[trigger] counted(ls[i], filter) ==> ls[i].ax < 1000 && ls[i].ay
            < 1000 && ls[i].bx < 1000 && ls[i].by < 1000
}

/// No point is passed more than `u32::MAX` times.
pub open spec fn fits(ls: Seq<Line>, filter: bool) -> bool {
    forall|x: int, y: int|
        0 <= x < 1000 && 0 <= y < 1000 ==> #[trigger] coverage(ls, filter, ls.len() as int, x, y)
            <= u32::MAX
}

/// How many of the first `k` grid points, in row-major order, are passed at least twice.
pub open spec fn overlap_count(ls: Seq<Line>, filter: bool, k: int) -> nat
    decreases k,
{
    if k <= 0 {
        0
    } else {
        overlap_count(ls, filter, k - 1) + (if coverage(
            ls,
            filter,
            ls.len() as int,
            (k - 1) % 1000,
            (k - 1) / 1000,
        ) > 1 {
            1nat
        } else {
            0nat
        })
    }
}

/// The number of grid points where at least two counted lines overlap, when every counted
/// line lies inside the grid and no point is passed more than `u32::MAX` times.
pub open spec fn overlaps(ls: Seq<Line>, filter: bool) -> Option<int> {
    if inside(ls, filter) && fits(ls, filter) {
        Some(overlap_count(ls, filter, 1000000) as int)
    } else {
        None
    }
}

/// Returns the next index from `n` toward `m`, or `n` when they are equal.
fn next_index(n: usize, m: usize) -> (r: usize)
    ensures
        r == step_toward(n as int, m as int),
{
    if n < m {
        n + 1
    } else if n == m {
        n
    } else {
        n - 1
    }
}

/// Returns the next point from `(x, y)` toward `(u, v)`.
fn next_point(x: usize, y: usize, u: usize, v: usize) -> (r: (usize, usize))
    ensures
        r.0 == step_toward(x as int, u as int),
        r.1 == step_toward(y as int, v as int),
{
    (next_index(x, u), next_index(y, v))
}

/// Whether `line` is horizontal or vertical.
fn is_orthogonal(line: &Line) -> (r: bool)
    ensures
        r == orthogonal(*line),
{
    line.ax == line.bx || line.ay == line.by
}

/// Adds one to the count at `(row, col)`; `false`, changing nothing, when it is `u32::MAX`.
fn increment_grid(grid: &mut Array2D<u32>, row: usize, col: usize) -> (r: bool)
    requires
        old(grid).wf(),
        old(grid).in_bounds(row as int, col as int),
    ensures
        final(grid).wf(),
        final(grid).same_shape(old(grid)),
        r == (old(grid).cell(row as int, col as int) < u32::MAX),
        r ==> final(grid).cells() == old(grid).cells().update(
            old(grid).offset(row as int, col as int),
            (old(grid).cell(row as int, col as int) + 1) as u32,
        ),
        !r ==> final(grid).cells() == old(grid).cells(),
{
    let n = *grid.index((row, col));
    if n == u32::MAX {
        return false;
    }
    grid.set(row, col, n + 1);
    true
}

proof fn lemma_walk(l: Line, k: int)
    requires
        0 <= k,
    ensures
        point(l, k + 1) == (
            step_toward(point(l, k).0, l.bx as int),
            step_toward(point(l, k).1, l.by as int),
        ),
        (point(l, k) == (l.bx as int, l.by as int)) <==> k >= steps(l),
        0 <= point(l, k).0 <= (if l.ax >= l.bx { l.ax as int } else { l.bx as int }),
        0 <= point(l, k).1 <= (if l.ay >= l.by { l.ay as int } else { l.by as int }),
{
}

proof fn lemma_visits_grow(l: Line, x: int, y: int, k1: int, k2: int)
    requires
        k1 <= k2,
    ensures
        visits(l, x, y, k1) <= visits(l, x, y, k2),
    decreases k2 - k1,
{
    if k1 < k2 {
        lemma_visits_grow(l, x, y, k1, k2 - 1);
    }
}

proof fn lemma_coverage_grows(ls: Seq<Line>, filter: bool, n1: int, n2: int, x: int, y: int)
    requires
        0 <= n1 <= n2,
    ensures
        coverage(ls, filter, n1, x, y) <= coverage(ls, filter, n2, x, y),
    decreases n2 - n1,
{
    if n1 < n2 {
        lemma_coverage_grows(ls, filter, n1, n2 - 1, x, y);
    }
}

/// The number of grid points where at least two lines of vents overlap, walking every line,
/// or only the horizontal and vertical ones when `filter_orthogonal` holds; `None` when a
/// walked line leaves the grid or a point is passed more than `u32::MAX` times.
pub fn solve(lines: &[Line], filter_orthogonal: bool) -> (r: Option<u32>)
    ensures
        r is Some <==> overlaps(lines@, filter_orthogonal) is Some,
        r matches Some(v) ==> overlaps(lines@, filter_orthogonal) == Some(v as int),
{
    let ghost ls = lines@;
    let ghost f = filter_orthogonal;
    let mut grid: Array2D<u32> = Array2D::fill(0, WIDTH, WIDTH);
    assert forall|c: int, r: int| 0 <= c < 1000 && 0 <= r < 1000 implies #[trigger] grid.cell(r, c)
        as int == coverage(ls, f, 0, c, r) by {
        grid.lemma_offset_in_cells(r, c);
    }
    let mut i: usize = 0;
    while i < lines.len()
        invariant
            ls == lines@,
            f == filter_orthogonal,
            i <= ls.len(),
            grid.wf(),
            grid.spec_rows() == 1000,
            grid.spec_cols() == 1000,
            forall|j: int|
                0 <= j < i && #[trigger] counted(ls[j], f) ==> ls[j].ax < 1000 && ls[j].ay < 1000
                    && ls[j].bx < 1000 && ls[j].by < 1000,
            forall|c: int, r: int|
                0 <= c < 1000 && 0 <= r < 1000 ==> #[trigger] grid.cell(r, c) as int == coverage(
                    ls,
                    f,
                    i as int,
                    c,
                    r,
                ),
        decreases ls.len() - i,
    {
        let line = lines[i];
        if filter_orthogonal && !is_orthogonal(&line) {
            i = i + 1;
            continue;
        }
        assert(counted(line, f));
        if line.ax >= WIDTH || line.ay >= WIDTH || line.bx >= WIDTH || line.by >= WIDTH {
            assert(!inside(ls, f)) by {
                assert(counted(ls[i as int], f));
            }
            return None;
        }
        let mut x = line.ax;
        let mut y = line.ay;
        let ghost mut k: int = 0;
        loop
            invariant_except_break
                0 <= k <= steps(line),
                (x as int, y as int) == point(line, k),
            invariant
                ls == lines@,
                f == filter_orthogonal,
                i < ls.len(),
                line == ls[i as int],
                counted(line, f),
                line.ax < 1000 && line.ay < 1000 && line.bx < 1000 && line.by < 1000,
                grid.wf(),
                grid.spec_rows() == 1000,
                grid.spec_cols() == 1000,
                forall|c: int, r: int|
                    0 <= c < 1000 && 0 <= r < 1000 ==> #[trigger] grid.cell(r, c) as int
                        == coverage(ls, f, i as int, c, r) + visits(line, c, r, k),
            ensures
                k == steps(line) + 1,
                forall|c: int, r: int|
                    0 <= c < 1000 && 0 <= r < 1000 ==> #[trigger] grid.cell(r, c) as int
                        == coverage(ls, f, i as int, c, r) + visits(line, c, r, k),
                grid.wf(),
                grid.spec_rows() == 1000,
                grid.spec_cols() == 1000,
            decreases steps(line) + 1 - k,
        {
            proof {
                lemma_walk(line, k);
            }
            let at_end = x == line.bx && y == line.by;
            let ghost before = grid;
            if !increment_grid(&mut grid, y, x) {
                proof {
                    let (cx, cy) = (x as int, y as int);
                    assert(before.cell(cy, cx) as int == coverage(ls, f, i as int, cx, cy) + visits(
                        line,
                        cx,
                        cy,
                        k,
                    ));
                    lemma_visits_grow(line, cx, cy, k + 1, steps(line) + 1);
                    lemma_coverage_grows(ls, f, i + 1, ls.len() as int, cx, cy);
                    assert(coverage(ls, f, ls.len() as int, cx, cy) > u32::MAX);
                }
                return None;
            }
            proof {
                before.lemma_set_then_get(
                    &grid,
                    y as int,
                    x as int,
                    (before.cell(y as int, x as int) + 1) as u32,
                );
            }
            let (nx, ny) = next_point(x, y, line.bx, line.by);
            x = nx;
            y = ny;
            proof {
                k = k + 1;
            }
            if at_end {
                break ;
            }
        }
        proof {
            assert forall|c: int, r: int| 0 <= c < 1000 && 0 <= r < 1000 implies #[trigger] grid.cell(
                r,
                c,
            ) as int == coverage(ls, f, i + 1, c, r) by {}
        }
        i = i + 1;
    }
    proof {
        assert forall|x: int, y: int| 0 <= x < 1000 && 0 <= y < 1000 implies #[trigger] coverage(
            ls,
            f,
            ls.len() as int,
            x,
            y,
        ) <= u32::MAX by {
            assert(grid.cell(y, x) as int == coverage(ls, f, i as int, x, y));
        }
    }
    let cells = grid.iter();
    let mut count: u32 = 0;
    let mut j: usize = 0;
    while j < cells.len()
        invariant
            ls == lines@,
            f == filter_orthogonal,
            i == ls.len(),
            grid.wf(),
            grid.spec_rows() == 1000,
            grid.spec_cols() == 1000,
            cells@.len() == 1000000,
            forall|k: int| 0 <= k < cells@.len() ==> *cells@[k] == grid.cells()[k],
            forall|c: int, r: int|
                0 <= c < 1000 && 0 <= r < 1000 ==> #[trigger] grid.cell(r, c) as int == coverage(
                    ls,
                    f,
                    i as int,
                    c,
                    r,
                ),
            j <= 1000000,
            count as int == overlap_count(ls, f, j as int),
            count <= j,
        decreases 1000000 - j,
    {
        proof {
            vstd::arithmetic::div_mod::lemma_fundamental_div_mod(j as int, 1000);
            vstd::arithmetic::div_mod::lemma_div_pos_is_pos(j as int, 1000);
            vstd::arithmetic::div_mod::lemma_mod_bound(j as int, 1000);
            assert(j as int / 1000 < 1000);
            assert(grid.cell(j as int / 1000, j as int % 1000) == grid.cells()[j as int]);
        }
        if *cells[j] > 1 {
            count = count + 1;
        }
        j = j + 1;
    }
    Some(count)
}

/// The number of points where at least two horizontal or vertical lines of `input` overlap;
/// `None` as for [`solve`], or when a line does not describe one.
pub fn part_one(input: &str) -> (r: Option<u32>)
    ensures
        r is Some <==> (lines_of(lines(input@)) matches Some(ls) && overlaps(ls, true) is Some),
        r matches Some(v) ==> overlaps(lines_of(lines(input@)).unwrap(), true) == Some(v as int),
{
    match parse_input(input) {
        Some(ls) => solve(ls.as_slice(), true),
        None => None,
    }
}

/// The number of points where at least two lines of `input` overlap; `None` as for
/// [`solve`], or when a line does not describe one.
pub fn part_two(input: &str) -> (r: Option<u32>)
    ensures
        r is Some <==> (lines_of(lines(input@)) matches Some(ls) && overlaps(ls, false) is Some),
        r matches Some(v) ==> overlaps(lines_of(lines(input@)).unwrap(), false) == Some(v as int),
{
    match parse_input(input) {
        Some(ls) => solve(ls.as_slice(), false),
        None => None,
    }
}

} // verus!
