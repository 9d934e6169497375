// Gear ratios: part numbers next to symbols on an engine schematic, and gears.
use vstd::prelude::*;

use crate::array::{
    lemma_offset_bounds, lemma_row_major_indices, moore_neighbors, row_major_indices, Array2D,
    Array2DIndex,
};
use crate::parse::{chars_of, is_digit, line_ranges, lines, sub_chars};

verus! {

/// The side of the schematic grid.
pub const WIDTH: usize = 140;

/// One cell of the engine schematic.
#[derive(Clone, Copy, Debug, PartialEq, Eq, Structural)]
pub enum SchematicValue {
    Empty,
    Symbol(char),
    Number(usize),
}

/// The grid of cells, and the part numbers that the `Number` cells refer to by index.
pub struct Schematic {
    pub grid: Array2D<SchematicValue>,
    pub numbers: Vec<u32>,
}

/// Reads `line`, row `row`, from the part numbers `nums` read so far: the cell of each
/// character, the part numbers afterwards, and whether the line ends inside a number; `None`
/// when a character falls outside the grid or a number exceeds `u32::MAX` as it is read.
pub open spec fn row_scan(line: Seq<char>, row: int, nums: Seq<int>) -> Option<
    (Seq<SchematicValue>, Seq<int>, bool),
>
    decreases line.len(),
{
    if line.len() == 0 {
        Some((Seq::empty(), nums, false))
    } else {
        match row_scan(line.drop_last(), row, nums) {
            None => None,
            Some((cells, ns, in_number)) => {
                let c = line.last();
                if row >= 140 || line.len() > 140 {
                    None
                } else if is_digit(c) {
                    let d = c as int - '0' as int;
                    if in_number && ns.len() > 0 {
                        let v = 10 * ns.last() + d;
                        if v > u32::MAX {
                            None
                        } else {
                            Some(
                                (
                                    cells.push(SchematicValue::Number((ns.len() - 1) as usize)),
                                    ns.update(ns.len() - 1, v),
                                    true,
                                ),
                            )
                        }
                    } else {
                        Some((cells.push(SchematicValue::Number(ns.len() as usize)), ns.push(d), true))
                    }
                } else if c == '.' {
                    Some((cells.push(SchematicValue::Empty), ns, false))
                } else {
                    Some((cells.push(SchematicValue::Symbol(c)), ns, false))
                }
            },
        }
    }
}

/// Reads the lines `ls` in order: the cells of each row and the part numbers.
pub open spec fn rows_scan(ls: Seq<Seq<char>>) -> Option<(Seq<Seq<SchematicValue>>, Seq<int>)>
    decreases ls.len(),
{
    if ls.len() == 0 {
        Some((Seq::empty(), Seq::empty()))
    } else {
        match rows_scan(ls.drop_last()) {
            None => None,
            Some((rows, ns)) => match row_scan(ls.last(), ls.len() - 1, ns) {
                None => None,
                Some((cells, ns2, _)) => Some((rows.push(cells), ns2)),
            },
        }
    }
}

/// The cell at `(r, c)` of the rows read, `None` past their ends.
pub open spec fn cell_at(rows: Seq<Seq<SchematicValue>>, r: int, c: int) -> SchematicValue {
    if 0 <= r < rows.len() && 0 <= c < rows[r].len() {
        rows[r][c]
    } else {
        SchematicValue::Empty
    }
}

/// The 140x140 cells, row-major, and the part numbers of a schematic.
pub open spec fn schematic_of(ls: Seq<Seq<char>>) -> Option<(Seq<SchematicValue>, Seq<int>)> {
    match rows_scan(ls) {
        None => None,
        Some((rows, ns)) => Some((Seq::new(19600, |k: int| cell_at(rows, k / 140, k % 140)), ns)),
    }
}

proof fn lemma_rows_prefix(ls: Seq<Seq<char>>, k: int)
    requires
        0 <= k <= ls.len(),
        rows_scan(ls.take(k)) is None,
    ensures
        rows_scan(ls) is None,
    decreases ls.len() - k,
{
    if k < ls.len() {
        assert(ls.take(k + 1).drop_last() =~= ls.take(k));
        lemma_rows_prefix(ls, k + 1);
    } else {
        assert(ls.take(k) =~= ls);
    }
}

proof fn lemma_row_prefix(line: Seq<char>, row: int, nums: Seq<int>, k: int)
    requires
        0 <= k <= line.len(),
        row_scan(line.take(k), row, nums) is None,
    ensures
        row_scan(line, row, nums) is None,
    decreases line.len() - k,
{
    if k < line.len() {
        assert(line.take(k + 1).drop_last() =~= line.take(k));
        lemma_row_prefix(line, row, nums, k + 1);
    } else {
        assert(line.take(k) =~= line);
    }
}

/// Whether `c` is an ASCII decimal digit.
fn digit_of(c: char) -> (r: Option<u32>)
    ensures
        r is Some <==> is_digit(c),
        r matches Some(d) ==> d == c as int - '0' as int,
{
    if '0' <= c && c <= '9' {
        Some(c as u32 - '0' as u32)
    } else {
        None
    }
}

/// Reads the schematic: each digit, `.` or symbol into its cell, numbers into the list that
/// `Number` cells point into; `None` when a character falls outside the 140x140 grid or a
/// number exceeds `u32::MAX`.
pub fn parse_input(input: &str) -> (r: Option<Schematic>)
    ensures
        r is Some <==> schematic_of(lines(input@)) is Some,
        r matches Some(s) ==> ({
            let (cells, ns) = schematic_of(lines(input@)).unwrap();
            &&& s.grid.wf()
            &&& s.grid.spec_rows() == 140 && s.grid.spec_cols() == 140
            &&& s.grid.cells() == cells
            &&& s.numbers@.map_values(|v: u32| v as int) == ns
            &&& forall|k: int|
                0 <= k < 19600 ==> (#[trigger] cells[k] matches SchematicValue::Number(j) ==> j
                    < ns.len())
        }),
{
    let chars = chars_of(input);
    let ranges = line_ranges(&chars);
    let ghost ls = lines(chars@);
    let mut grid = Array2D::fill(SchematicValue::Empty, WIDTH, WIDTH);
    let mut numbers: Vec<u32> = Vec::new();
    let ghost mut rows: Seq<Seq<SchematicValue>> = Seq::empty();
    assert(ls.take(0) =~= Seq::<Seq<char>>::empty());
    assert forall|rr: int, cc: int| 0 <= rr < 140 && 0 <= cc < 140 implies #[trigger] grid.cell(
        rr,
        cc,
    ) == cell_at(rows, rr, cc) by {
        grid.lemma_offset_in_cells(rr, cc);
    }
    let mut r: usize = 0;
    while r < ranges.len()
        invariant
            chars@ == input@,
            ls == lines(chars@),
            ranges@.len() == ls.len(),
            forall|j: int|
                0 <= j < ranges@.len() ==> (#[trigger] ranges@[j]).0 <= ranges@[j].1
                    <= chars@.len(),
            forall|j: int|
                0 <= j < ranges@.len() ==> chars@.subrange(ranges@[j].0 as int, ranges@[j].1 as int)
                    == #[trigger] ls[j],
            r <= ls.len(),
            rows.len() == r,
            rows_scan(ls.take(r as int)) == Some((rows, numbers@.map_values(|v: u32| v as int))),
            grid.wf(),
            grid.spec_rows() == 140,
            grid.spec_cols() == 140,
            forall|rr: int, cc: int|
                0 <= rr < 140 && 0 <= cc < 140 ==> #[trigger] grid.cell(rr, cc) == cell_at(
                    rows,
                    rr,
                    cc,
                ),
            forall|k: int|
                0 <= k < 19600 ==> (#[trigger] grid.cells()[k] matches SchematicValue::Number(j)
                    ==> j < numbers@.len()),
        decreases ls.len() - r,
    {
        assert(ls.take(r + 1).drop_last() =~= ls.take(r as int));
        assert(ls.take(r + 1).last() == ls[r as int]);
        let line = sub_chars(&chars, ranges[r]);
        let ghost ns0 = numbers@.map_values(|v: u32| v as int);
        let ghost mut cells: Seq<SchematicValue> = Seq::empty();
        let mut in_number = false;
        let mut c: usize = 0;
        assert(line@.take(0) =~= Seq::<char>::empty());
        while c < line.len()
            invariant
                chars@ == input@,
                ls == lines(chars@),
                rows.len() == r,
                line@ == ls[r as int],
                r < ls.len(),
                ls.take(r + 1).drop_last() == ls.take(r as int),
                ls.take(r + 1).last() == ls[r as int],
                c <= line@.len(),
                rows_scan(ls.take(r as int)) == Some((rows, ns0)),
                row_scan(line@.take(c as int), r as int, ns0) == Some(
                    (cells, numbers@.map_values(|v: u32| v as int), in_number),
                ),
                cells.len() == c,
                in_number ==> numbers@.len() > 0,
                grid.wf(),
                grid.spec_rows() == 140,
                grid.spec_cols() == 140,
                forall|rr: int, cc: int|
                    0 <= rr < 140 && 0 <= cc < 140 ==> #[trigger] grid.cell(rr, cc) == if rr < r {
                        cell_at(rows, rr, cc)
                    } else if rr == r && cc < c {
                        cells[cc]
                    } else {
                        SchematicValue::Empty
                    },
                forall|k: int|
                    0 <= k < 19600 ==> (#[trigger] grid.cells()[k] matches SchematicValue::Number(
                        j,
                    ) ==> j < numbers@.len()),
            decreases line@.len() - c,
        {
            assert(line@.take(c + 1).drop_last() =~= line@.take(c as int));
            assert(line@.take(c + 1).last() == line@[c as int]);
            if r >= WIDTH || c >= WIDTH {
                proof {
                    lemma_row_prefix(line@, r as int, ns0, c + 1);
                    lemma_rows_prefix(ls, r + 1);
                }
                return None;
            }
            let ch = line[c];
            let ghost before = numbers@;
            let cell = match digit_of(ch) {
                Some(d) => {
                    if in_number {
                        let idx = numbers.len() - 1;
                        let v = match numbers[idx].checked_mul(10) {
                            Some(t) => t.checked_add(d),
                            None => None,
                        };
                        match v {
                            Some(v) => {
                                numbers.set(idx, v);
                                assert(numbers@.map_values(|v: u32| v as int) =~= before.map_values(
                                    |v: u32| v as int,
                                ).update(idx as int, v as int));
                                SchematicValue::Number(idx)
                            },
                            None => {
                                proof {
                                    let ns = before.map_values(|v: u32| v as int);
                                    assert(ns.last() == numbers@[idx as int] as int);
                                    assert(10 * ns.last() + d > u32::MAX);
                                    lemma_row_prefix(line@, r as int, ns0, c + 1);
                                    lemma_rows_prefix(ls, r + 1);
                                }
                                return None;
                            },
                        }
                    } else {
                        numbers.push(d);
                        assert(numbers@.map_values(|v: u32| v as int) =~= before.map_values(
                            |v: u32| v as int,
                        ).push(d as int));
                        in_number = true;
                        SchematicValue::Number(numbers.len() - 1)
                    }
                },
                None => {
                    in_number = false;
                    if ch == '.' {
                        SchematicValue::Empty
                    } else {
                        SchematicValue::Symbol(ch)
                    }
                },
            };
            let ghost old_grid = grid;
            proof {
                lemma_offset_bounds(140, 140, r as int, c as int);
            }
            grid.set(r, c, cell);
            proof {
                old_grid.lemma_set_then_get(&grid, r as int, c as int, cell);
                cells = cells.push(cell);
                assert forall|k: int| 0 <= k < 19600 implies (#[trigger] grid.cells()[k] matches SchematicValue::Number(
                    j,
                ) ==> j < numbers@.len()) by {
                    if k != r * 140 + c {
                        assert(grid.cells()[k] == old_grid.cells()[k]);
                    }
                }
            }
            c = c + 1;
        }
        assert(line@.take(c as int) =~= line@);
        proof {
            let new_rows = rows.push(cells);
            assert forall|rr: int, cc: int| 0 <= rr < 140 && 0 <= cc < 140 implies #[trigger] grid.cell(
                rr,
                cc,
            ) == cell_at(new_rows, rr, cc) by {
                if rr < r {
                    assert(new_rows[rr] == rows[rr]);
                }
            }
            rows = new_rows;
        }
        r = r + 1;
    }
    assert(ls.take(r as int) =~= ls);
    let ghost spec_cells = schematic_of(ls).unwrap().0;
    assert forall|k: int| 0 <= k < 19600 implies #[trigger] grid.cells()[k] == spec_cells[k] by {
        vstd::arithmetic::div_mod::lemma_fundamental_div_mod(k, 140);
        vstd::arithmetic::div_mod::lemma_div_pos_is_pos(k, 140);
        vstd::arithmetic::div_mod::lemma_mod_bound(k, 140);
        assert(k / 140 < 140);
        assert(grid.cell(k / 140, k % 140) == grid.cells()[k]);
    }
    assert(grid.cells() =~= spec_cells);
    Some(Schematic { grid, numbers })
}

/// The cells of the 140x140 row-major `cells` at those of `ps` inside the grid, in order.
pub open spec fn lookup_in(cells: Seq<SchematicValue>, ps: Seq<Array2DIndex>) -> Seq<SchematicValue>
    decreases ps.len(),
{
    if ps.len() == 0 {
        Seq::empty()
    } else {
        let p = ps[0];
        let head = if p.0 < 140 && p.1 < 140 {
            seq![cells[p.0 * 140 + p.1]]
        } else {
            Seq::empty()
        };
        head + lookup_in(cells, ps.drop_first())
    }
}

/// The cells around `(row, col)` in the schematic `cells`, in Moore order.
pub open spec fn around(cells: Seq<SchematicValue>, row: int, col: int) -> Seq<SchematicValue> {
    lookup_in(cells, moore_neighbors((row as usize, col as usize), false))
}

/// The part indices of the `Number` cells of `vals`, each once, in order of first sight.
pub open spec fn distinct_parts(vals: Seq<SchematicValue>) -> Seq<usize>
    decreases vals.len(),
{
    if vals.len() == 0 {
        Seq::empty()
    } else {
        let d = distinct_parts(vals.drop_last());
        match vals.last() {
            SchematicValue::Number(i) => if d.contains(i) {
                d
            } else {
                d.push(i)
            },
            _ => d,
        }
    }
}

/// `acc` plus the numbers of the parts `ps`, added in order; `None` once a sum exceeds
/// `u32::MAX`.
pub open spec fn add_parts(acc: int, ps: Seq<usize>, nums: Seq<int>) -> Option<int>
    decreases ps.len(),
{
    if ps.len() == 0 {
        Some(acc)
    } else {
        match add_parts(acc, ps.drop_last(), nums) {
            Some(a) => if a + nums[ps.last() as int] <= u32::MAX {
                Some(a + nums[ps.last() as int])
            } else {
                None
            },
            None => None,
        }
    }
}

/// The sum, over the symbols among the first `k` cells in row-major order, of the numbers of
/// the parts around each; `None` once a sum exceeds `u32::MAX`.
pub open spec fn part_sum(cells: Seq<SchematicValue>, nums: Seq<int>, k: int) -> Option<int>
    decreases k,
{
    if k <= 0 {
        Some(0)
    } else {
        match part_sum(cells, nums, k - 1) {
            None => None,
            Some(acc) => match cells[k - 1] {
                SchematicValue::Symbol(_) => add_parts(
                    acc,
                    distinct_parts(around(cells, (k - 1) / 140, (k - 1) % 140)),
                    nums,
                ),
                _ => Some(acc),
            },
        }
    }
}

/// The sum, over the `*` among the first `k` cells with exactly two parts around, of the
/// product of their numbers; `None` once a product or a sum exceeds `u32::MAX`.
pub open spec fn gear_sum(cells: Seq<SchematicValue>, nums: Seq<int>, k: int) -> Option<int>
    decreases k,
{
    if k <= 0 {
        Some(0)
    } else {
        match gear_sum(cells, nums, k - 1) {
            None => None,
            Some(acc) => {
                let ps = distinct_parts(around(cells, (k - 1) / 140, (k - 1) % 140));
                if cells[k - 1] == SchematicValue::Symbol('*') && ps.len() == 2 {
                    let p = nums[ps[0] as int] * nums[ps[1] as int];
                    if p > u32::MAX || acc + p > u32::MAX {
                        None
                    } else {
                        Some(acc + p)
                    }
                } else {
                    Some(acc)
                }
            },
        }
    }
}

proof fn lemma_lookup_same(g: &Array2D<SchematicValue>, ps: Seq<Array2DIndex>)
    requires
        g.wf(),
        g.spec_rows() == 140,
        g.spec_cols() == 140,
    ensures
        g.lookup_all(ps) == lookup_in(g.cells(), ps),
    decreases ps.len(),
{
    if ps.len() > 0 {
        lemma_lookup_same(g, ps.drop_first());
    }
}

/// Whether `v` occurs in `s`.
fn has_part(s: &Vec<usize>, v: usize) -> (r: bool)
    ensures
        r == s@.contains(v),
{
    let mut k: usize = 0;
    while k < s.len()
        invariant
            k <= s@.len(),
            forall|j: int| 0 <= j < k ==> s@[j] != v,
        decreases s@.len() - k,
    {
        if s[k] == v {
            return true;
        }
        k = k + 1;
    }
    false
}

/// The part indices of the numbers around `index`, each once.
pub fn collect_part_set(schematic: &Schematic, index: Array2DIndex) -> (r: Vec<usize>)
    requires
        schematic.grid.wf(),
        schematic.grid.spec_rows() == 140,
        schematic.grid.spec_cols() == 140,
    ensures
        r@ == distinct_parts(around(schematic.grid.cells(), index.0 as int, index.1 as int)),
{
    let (row, col) = index;
    let adjacent = schematic.grid.iter_adjacent(row, col);
    let ghost vals = around(schematic.grid.cells(), row as int, col as int);
    proof {
        lemma_lookup_same(&schematic.grid, moore_neighbors((row, col), false));
    }
    let mut result: Vec<usize> = Vec::new();
    let mut k: usize = 0;
    assert(vals.take(0) =~= Seq::<SchematicValue>::empty());
    while k < adjacent.len()
        invariant
            adjacent@.len() == vals.len(),
            forall|j: int| 0 <= j < adjacent@.len() ==> *adjacent@[j] == vals[j],
            k <= vals.len(),
            result@ == distinct_parts(vals.take(k as int)),
        decreases vals.len() - k,
    {
        assert(vals.take(k + 1).drop_last() =~= vals.take(k as int));
        assert(vals.take(k + 1).last() == vals[k as int]);
        match *adjacent[k] {
            SchematicValue::Number(i) => {
                if !has_part(&result, i) {
                    result.push(i);
                }
            },
            _ => {},
        }
        k = k + 1;
    }
    assert(vals.take(k as int) =~= vals);
    result
}

proof fn lemma_distinct_parts_bound(vals: Seq<SchematicValue>, n: int)
    requires
        forall|i: int|
            0 <= i < vals.len() ==> (#[trigger] vals[i] matches SchematicValue::Number(j) ==> j < n),
    ensures
        forall|i: int| 0 <= i < distinct_parts(vals).len() ==> #[trigger] distinct_parts(vals)[i] < n,
    decreases vals.len(),
{
    if vals.len() > 0 {
        assert forall|i: int|
            0 <= i < vals.drop_last().len() implies (#[trigger] vals.drop_last()[i] matches SchematicValue::Number(
            j,
        ) ==> j < n) by {
            assert(vals.drop_last()[i] == vals[i]);
        }
        lemma_distinct_parts_bound(vals.drop_last(), n);
        let d = distinct_parts(vals.drop_last());
        assert(vals.last() == vals[vals.len() - 1]);
        assert forall|i: int| 0 <= i < distinct_parts(vals).len() implies #[trigger] distinct_parts(
            vals,
        )[i] < n by {
            if i < d.len() {
                assert(distinct_parts(vals)[i] == d[i]);
            }
        }
    }
}

proof fn lemma_lookup_in_bound(cells: Seq<SchematicValue>, ps: Seq<Array2DIndex>, n: int)
    requires
        cells.len() == 19600,
        forall|k: int|
            0 <= k < 19600 ==> (#[trigger] cells[k] matches SchematicValue::Number(j) ==> j < n),
    ensures
        forall|i: int|
            0 <= i < lookup_in(cells, ps).len() ==> (#[trigger] lookup_in(cells, ps)[i] matches SchematicValue::Number(
                j,
            ) ==> j < n),
    decreases ps.len(),
{
    if ps.len() > 0 {
        lemma_lookup_in_bound(cells, ps.drop_first(), n);
        let p = ps[0];
        if p.0 < 140 && p.1 < 140 {
            lemma_offset_bounds(140, 140, p.0 as int, p.1 as int);
        }
        let head = if p.0 < 140 && p.1 < 140 {
            seq![cells[p.0 * 140 + p.1]]
        } else {
            Seq::empty()
        };
        let rest = lookup_in(cells, ps.drop_first());
        assert forall|i: int| 0 <= i < lookup_in(cells, ps).len() implies (#[trigger] lookup_in(
            cells,
            ps,
        )[i] matches SchematicValue::Number(j) ==> j < n) by {
            if i < head.len() {
                assert(lookup_in(cells, ps)[i] == head[i]);
            } else {
                assert(lookup_in(cells, ps)[i] == rest[i - head.len()]);
            }
        }
    }
}

proof fn lemma_add_parts_prefix(acc: int, ps: Seq<usize>, nums: Seq<int>, j: int)
    requires
        0 <= j <= ps.len(),
        add_parts(acc, ps.take(j), nums) is None,
    ensures
        add_parts(acc, ps, nums) is None,
    decreases ps.len() - j,
{
    if j < ps.len() {
        assert(ps.take(j + 1).drop_last() =~= ps.take(j));
        lemma_add_parts_prefix(acc, ps, nums, j + 1);
    } else {
        assert(ps.take(j) =~= ps);
    }
}

proof fn lemma_part_sum_prefix(cells: Seq<SchematicValue>, nums: Seq<int>, k: int, n: int)
    requires
        0 <= k <= n,
        part_sum(cells, nums, k) is None,
    ensures
        part_sum(cells, nums, n) is None,
    decreases n - k,
{
    if k < n {
        lemma_part_sum_prefix(cells, nums, k + 1, n);
    }
}

proof fn lemma_gear_sum_prefix(cells: Seq<SchematicValue>, nums: Seq<int>, k: int, n: int)
    requires
        0 <= k <= n,
        gear_sum(cells, nums, k) is None,
    ensures
        gear_sum(cells, nums, n) is None,
    decreases n - k,
{
    if k < n {
        lemma_gear_sum_prefix(cells, nums, k + 1, n);
    }
}

/// The parts around the cell at position `k` (row-major) of a parsed schematic, with their
/// indices inside the number list.
fn parts_at(schematic: &Schematic, index: Array2DIndex, k: usize) -> (r: Vec<usize>)
    requires
        schematic.grid.wf(),
        schematic.grid.spec_rows() == 140,
        schematic.grid.spec_cols() == 140,
        k < 19600,
        index == ((k / 140) as usize, (k % 140) as usize),
        forall|i: int|
            0 <= i < 19600 ==> (#[trigger] schematic.grid.cells()[i] matches SchematicValue::Number(
                j,
            ) ==> j < schematic.numbers@.len()),
    ensures
        r@ == distinct_parts(around(schematic.grid.cells(), (k / 140) as int, (k % 140) as int)),
        forall|i: int| 0 <= i < r@.len() ==> #[trigger] r@[i] < schematic.numbers@.len(),
{
    let parts = collect_part_set(schematic, index);
    proof {
        lemma_lookup_in_bound(
            schematic.grid.cells(),
            moore_neighbors(index, false),
            schematic.numbers@.len() as int,
        );
        lemma_distinct_parts_bound(
            around(schematic.grid.cells(), (k / 140) as int, (k % 140) as int),
            schematic.numbers@.len() as int,
        );
    }
    parts
}

/// The sum of the numbers of the parts around each symbol of the schematic `input`; `None`
/// when the schematic does not fit the grid or a number or the sum exceeds `u32::MAX`.
pub fn part_one(input: &str) -> (r: Option<u32>)
    ensures
        r is Some <==> (schematic_of(lines(input@)) matches Some(p) && part_sum(p.0, p.1, 19600)
            is Some),
        r matches Some(v) ==> ({
            let p = schematic_of(lines(input@)).unwrap();
            part_sum(p.0, p.1, 19600) == Some(v as int)
        }),
{
    let schematic = match parse_input(input) {
        Some(s) => s,
        None => {
            return None;
        },
    };
    let ghost cs = schematic.grid.cells();
    let ghost ns = schematic.numbers@.map_values(|v: u32| v as int);
    let cells = schematic.grid.enumerate();
    proof {
        lemma_row_major_indices(140, 140);
    }
    let mut result: u32 = 0;
    let mut k: usize = 0;
    while k < cells.len()
        invariant
            schematic_of(lines(input@)) == Some((cs, ns)),
            cs == schematic.grid.cells(),
            ns == schematic.numbers@.map_values(|v: u32| v as int),
            schematic.grid.wf(),
            schematic.grid.spec_rows() == 140,
            schematic.grid.spec_cols() == 140,
            forall|i: int|
                0 <= i < 19600 ==> (#[trigger] cs[i] matches SchematicValue::Number(j) ==> j
                    < ns.len()),
            cells@.len() == 19600,
            forall|i: int|
                0 <= i < cells@.len() ==> (#[trigger] cells@[i]).0 == row_major_indices(140, 140)[i]
                    && *cells@[i].1 == cs[i],
            row_major_indices(140, 140).len() == 19600,
            k <= 19600,
            part_sum(cs, ns, k as int) == Some(result as int),
        decreases 19600 - k,
    {
        let (index, value) = cells[k];
        assert(index == ((k / 140) as usize, (k % 140) as usize));
        assert(*value == cs[k as int]);
        match *value {
            SchematicValue::Symbol(_) => {
                let parts = parts_at(&schematic, index, k);
                let ghost acc = result as int;
                let mut j: usize = 0;
                assert(parts@.take(0) =~= Seq::<usize>::empty());
                while j < parts.len()
                    invariant
                        ns == schematic.numbers@.map_values(|v: u32| v as int),
                        forall|i: int| 0 <= i < parts@.len() ==> #[trigger] parts@[i] < ns.len(),
                        k < 19600,
                        schematic_of(lines(input@)) == Some((cs, ns)),
                        cs == schematic.grid.cells(),
                        part_sum(cs, ns, k as int) == Some(acc),
                        cs[k as int] is Symbol,
                        parts@ == distinct_parts(around(cs, (k / 140) as int, (k % 140) as int)),
                        j <= parts@.len(),
                        add_parts(acc, parts@.take(j as int), ns) == Some(result as int),
                    decreases parts@.len() - j,
                {
                    assert(parts@.take(j + 1).drop_last() =~= parts@.take(j as int));
                    assert(parts@.take(j + 1).last() == parts@[j as int]);
                    assert(ns[parts@[j as int] as int] == schematic.numbers@[parts@[j as int] as int]);
                    match result.checked_add(schematic.numbers[parts[j]]) {
                        Some(t) => {
                            result = t;
                        },
                        None => {
                            proof {
                                lemma_add_parts_prefix(acc, parts@, ns, j + 1);
                                lemma_part_sum_prefix(cs, ns, k + 1, 19600);
                            }
                            return None;
                        },
                    }
                    j = j + 1;
                }
                assert(parts@.take(j as int) =~= parts@);
            },
            _ => {},
        }
        k = k + 1;
    }
    Some(result)
}

/// The sum of the gear ratios of the schematic `input`: for each `*` with exactly two parts
/// around, the product of their numbers; `None` when the schematic does not fit the grid or
/// a number, product or the sum exceeds `u32::MAX`.
pub fn part_two(input: &str) -> (r: Option<u32>)
    ensures
        r is Some <==> (schematic_of(lines(input@)) matches Some(p) && gear_sum(p.0, p.1, 19600)
            is Some),
        r matches Some(v) ==> ({
            let p = schematic_of(lines(input@)).unwrap();
            gear_sum(p.0, p.1, 19600) == Some(v as int)
        }),
{
    let schematic = match parse_input(input) {
        Some(s) => s,
        None => {
            return None;
        },
    };
    let ghost cs = schematic.grid.cells();
    let ghost ns = schematic.numbers@.map_values(|v: u32| v as int);
    let cells = schematic.grid.enumerate();
    proof {
        lemma_row_major_indices(140, 140);
    }
    let mut result: u32 = 0;
    let mut k: usize = 0;
    while k < cells.len()
        invariant
            schematic_of(lines(input@)) == Some((cs, ns)),
            cs == schematic.grid.cells(),
            ns == schematic.numbers@.map_values(|v: u32| v as int),
            schematic.grid.wf(),
            schematic.grid.spec_rows() == 140,
            schematic.grid.spec_cols() == 140,
            forall|i: int|
                0 <= i < 19600 ==> (#[trigger] cs[i] matches SchematicValue::Number(j) ==> j
                    < ns.len()),
            cells@.len() == 19600,
            forall|i: int|
                0 <= i < cells@.len() ==> (#[trigger] cells@[i]).0 == row_major_indices(140, 140)[i]
                    && *cells@[i].1 == cs[i],
            row_major_indices(140, 140).len() == 19600,
            k <= 19600,
            gear_sum(cs, ns, k as int) == Some(result as int),
        decreases 19600 - k,
    {
        let (index, value) = cells[k];
        assert(index == ((k / 140) as usize, (k % 140) as usize));
        if *value == SchematicValue::Symbol('*') {
            let parts = parts_at(&schematic, index, k);
            if parts.len() == 2 {
                assert(ns[parts@[0] as int] == schematic.numbers@[parts@[0] as int]);
                assert(ns[parts@[1] as int] == schematic.numbers@[parts@[1] as int]);
                let ratio = match schematic.numbers[parts[0]].checked_mul(schematic.numbers[parts[1]]) {
                    Some(p) => p,
                    None => {
                        proof {
                            lemma_gear_sum_prefix(cs, ns, k + 1, 19600);
                        }
                        return None;
                    },
                };
                match result.checked_add(ratio) {
                    Some(t) => {
                        result = t;
                    },
                    None => {
                        proof {
                            lemma_gear_sum_prefix(cs, ns, k + 1, 19600);
                        }
                        return None;
                    },
                }
            }
        }
        k = k + 1;
    }
    Some(result)
}

} // verus!
