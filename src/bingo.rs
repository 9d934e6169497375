// Giant squid bingo: marking 5x5 boards as numbers are called, first and last winner.
use vstd::prelude::*;

use crate::array::{lemma_offset_bounds, Array2D};
use crate::parse::{
    chars_of, decimal_in, decimals_of, line_ranges, lines, piece_ranges, pieces, sub_chars, u32_words,
    words,
};

verus! {

/// The side of a bingo board.
pub const WIDTH: usize = 5;

/// Row `r` of the 5x5 row-major marks `m` is fully marked.
pub open spec fn row_full(m: Seq<bool>, r: int) -> bool {
    forall|c: int| 0 <= c < 5 ==> #[trigger] m[r * 5 + c]
}

/// Column `c` of the 5x5 row-major marks `m` is fully marked.
pub open spec fn col_full(m: Seq<bool>, c: int) -> bool {
    forall|r: int| 0 <= r < 5 ==> #[trigger] m[r * 5 + c]
}

/// Some row or column of `m` is fully marked.
pub open spec fn has_line(m: Seq<bool>) -> bool {
    (exists|r: int| 0 <= r < 5 && #[trigger] row_full(m, r)) || (exists|c: int|
        0 <= c < 5 && #[trigger] col_full(m, c))
}

/// A bingo board: its numbers and which of them are marked.
pub struct Board {
    pub values: Array2D<u32>,
    pub picked: Array2D<bool>,
}

impl Board {
    /// Both grids are 5x5.
    pub open spec fn wf(&self) -> bool {
        &&& self.values.wf()
        &&& self.picked.wf()
        &&& self.values.spec_rows() == 5 && self.values.spec_cols() == 5
        &&& self.picked.spec_rows() == 5 && self.picked.spec_cols() == 5
    }

    /// Marks every cell holding `n` and tells whether the board then has a full row or
    /// column.
    pub fn pick(&mut self, n: u32) -> (r: bool)
        requires
            old(self).wf(),
        ensures
            final(self).wf(),
            final(self).values == old(self).values,
            final(self).picked.cells() == Seq::new(
                25,
                |i: int| old(self).picked.cells()[i] || old(self).values.cells()[i] == n,
            ),
            r == has_line(final(self).picked.cells()),
    {
        let ghost before = self.picked.cells();
        let mut row: usize = 0;
        while row < WIDTH
            invariant
                self.wf(),
                self.values == old(self).values,
                before == old(self).picked.cells(),
                row <= 5,
                forall|i: int|
                    0 <= i < 25 ==> #[trigger] self.picked.cells()[i] == if i < row * 5 {
                        before[i] || self.values.cells()[i] == n
                    } else {
                        before[i]
                    },
            decreases 5 - row,
        {
            let mut col: usize = 0;
            while col < WIDTH
                invariant
                    self.wf(),
                    self.values == old(self).values,
                    before == old(self).picked.cells(),
                    row < 5,
                    col <= 5,
                    forall|i: int|
                        0 <= i < 25 ==> #[trigger] self.picked.cells()[i] == if i < row * 5 + col {
                            before[i] || self.values.cells()[i] == n
                        } else {
                            before[i]
                        },
                decreases 5 - col,
            {
                proof {
                    lemma_offset_bounds(5, 5, row as int, col as int);
                }
                let value = *self.values.index((row, col));
                let marked = *self.picked.index((row, col));
                self.picked.set(row, col, marked || value == n);
                col = col + 1;
            }
            row = row + 1;
        }
        let ghost m = self.picked.cells();
        assert(m =~= Seq::new(25, |i: int| before[i] || self.values.cells()[i] == n));
        let rows = self.picked.iter_rows();
        let mut i: usize = 0;
        while i < rows.len()
            invariant
                self.wf(),
                self.values == old(self).values,
                m == self.picked.cells(),
                m == Seq::new(25, |i: int| before[i] || self.values.cells()[i] == n),
                before == old(self).picked.cells(),
                rows@.len() == 5,
                forall|a: int| 0 <= a < 5 ==> (#[trigger] rows@[a])@.len() == 5,
                forall|a: int, b: int|
                    0 <= a < 5 && 0 <= b < 5 ==> *(#[trigger] rows@[a]@[b]) == m[a * 5 + b],
                i <= 5,
                forall|a: int| 0 <= a < i ==> !#[trigger] row_full(m, a),
            decreases 5 - i,
        {
            if all_marked(&rows[i]) {
                assert forall|c: int| 0 <= c < 5 implies #[trigger] m[i * 5 + c] by {
                    assert(*rows@[i as int]@[c]);
                }
                assert(row_full(m, i as int));
                return true;
            }
            i = i + 1;
        }
        let cols = self.picked.iter_cols();
        let mut j: usize = 0;
        while j < cols.len()
            invariant
                self.wf(),
                self.values == old(self).values,
                m == self.picked.cells(),
                m == Seq::new(25, |i: int| before[i] || self.values.cells()[i] == n),
                before == old(self).picked.cells(),
                cols@.len() == 5,
                forall|b: int| 0 <= b < 5 ==> (#[trigger] cols@[b])@.len() == 5,
                forall|b: int, a: int|
                    0 <= b < 5 && 0 <= a < 5 ==> *(#[trigger] cols@[b]@[a]) == m[a * 5 + b],
                j <= 5,
                forall|a: int| 0 <= a < 5 ==> !#[trigger] row_full(m, a),
                forall|b: int| 0 <= b < j ==> !#[trigger] col_full(m, b),
            decreases 5 - j,
        {
            if all_marked(&cols[j]) {
                assert forall|a: int| 0 <= a < 5 implies #[trigger] m[a * 5 + j] by {
                    assert(*cols@[j as int]@[a]);
                }
                assert(col_full(m, j as int));
                return true;
            }
            j = j + 1;
        }
        false
    }
}

/// Whether every mark of `cells` is set.
fn all_marked(cells: &Vec<&bool>) -> (r: bool)
    ensures
        r == forall|i: int| 0 <= i < cells@.len() ==> *#[trigger] cells@[i],
{
    let mut i: usize = 0;
    while i < cells.len()
        invariant
            i <= cells@.len(),
            forall|k: int| 0 <= k < i ==> *#[trigger] cells@[k],
        decreases cells@.len() - i,
    {
        if !*cells[i] {
            return false;
        }
        i = i + 1;
    }
    true
}

pub open spec fn as_u32s(s: Seq<int>) -> Seq<u32> {
    s.map_values(|v: int| v as u32)
}

/// The numbers of the board lines `ls`, in order.
pub open spec fn board_numbers(ls: Seq<Seq<char>>) -> Seq<u32>
    decreases ls.len(),
{
    if ls.len() == 0 {
        Seq::empty()
    } else {
        board_numbers(ls.drop_last()) + as_u32s(decimals_of(words(ls.last()), u32::MAX as int))
    }
}

/// The boards of `rest`: each a separating line and five lines of numbers, twenty-five in
/// all; `None` when the lines do not have that shape.
pub open spec fn boards_of(rest: Seq<Seq<char>>) -> Option<Seq<Seq<u32>>>
    decreases rest.len(),
{
    if rest.len() == 0 {
        Some(Seq::empty())
    } else if rest.len() < 6 {
        None
    } else {
        let vals = board_numbers(rest.subrange(1, 6));
        if vals.len() != 25 {
            None
        } else {
            match boards_of(rest.subrange(6, rest.len() as int)) {
                Some(bs) => Some(seq![vals] + bs),
                None => None,
            }
        }
    }
}

/// The drawn numbers (the first line, comma-separated) and the boards that follow.
pub open spec fn bingo_input(ls: Seq<Seq<char>>) -> Option<(Seq<u32>, Seq<Seq<u32>>)> {
    if ls.len() == 0 {
        None
    } else {
        match boards_of(ls.subrange(1, ls.len() as int)) {
            Some(bs) => Some((as_u32s(decimals_of(pieces(ls[0], ','), u32::MAX as int)), bs)),
            None => None,
        }
    }
}

pub open spec fn prepend(done: Seq<Seq<u32>>, rest: Option<Seq<Seq<u32>>>) -> Option<
    Seq<Seq<u32>>,
> {
    match rest {
        Some(bs) => Some(done + bs),
        None => None,
    }
}

/// Reads the comma-separated numbers of `line` that are `u32`s, skipping the others.
pub fn parse_selected_numbers(line: &Vec<char>) -> (r: Vec<u32>)
    ensures
        r@ == as_u32s(decimals_of(pieces(line@, ','), u32::MAX as int)),
{
    let ranges = piece_ranges(line, ',');
    let ghost ws = pieces(line@, ',');
    let mut out: Vec<u32> = Vec::new();
    let mut k: usize = 0;
    assert(ws.take(0) =~= Seq::<Seq<char>>::empty());
    assert(out@ =~= as_u32s(decimals_of(ws.take(0), u32::MAX as int)));
    while k < ranges.len()
        invariant
            ws == pieces(line@, ','),
            ranges@.len() == ws.len(),
            forall|j: int|
                0 <= j < ranges@.len() ==> (#[trigger] ranges@[j]).0 <= ranges@[j].1
                    <= line@.len(),
            forall|j: int|
                0 <= j < ranges@.len() ==> line@.subrange(ranges@[j].0 as int, ranges@[j].1 as int)
                    == #[trigger] ws[j],
            k <= ranges@.len(),
            out@ == as_u32s(decimals_of(ws.take(k as int), u32::MAX as int)),
        decreases ranges@.len() - k,
    {
        let ghost prev = decimals_of(ws.take(k as int), u32::MAX as int);
        assert(ws.take(k + 1).drop_last() =~= ws.take(k as int));
        assert(ws.take(k + 1).last() == ws[k as int]);
        let (a, b) = ranges[k];
        match decimal_in(line, a, b, u32::MAX as u64) {
            Some(v) => {
                out.push(v as u32);
                assert(out@ =~= as_u32s(prev.push(v as int)));
            },
            None => {},
        }
        k = k + 1;
    }
    assert(ws.take(k as int) =~= ws);
    out
}

/// Reads the numbers of one board line that are `u32`s, skipping the other words.
pub fn parse_board_line(line: &Vec<char>) -> (r: Vec<u32>)
    ensures
        r@ == as_u32s(decimals_of(words(line@), u32::MAX as int)),
{
    let r = u32_words(line);
    assert(r@ =~= as_u32s(decimals_of(words(line@), u32::MAX as int)));
    r
}

/// Reads the drawn numbers and the boards; `None` when the boards do not have the expected
/// shape.
pub fn parse_input(input: &str) -> (r: Option<(Vec<u32>, Vec<Board>)>)
    ensures
        r is Some <==> bingo_input(lines(input@)) is Some,
        r matches Some(p) ==> ({
            let (ns, vs) = bingo_input(lines(input@)).unwrap();
            &&& p.0@ == ns
            &&& p.1@.len() == vs.len()
            &&& forall|b: int|
                0 <= b < vs.len() ==> (#[trigger] p.1@[b]).wf() && p.1@[b].values.cells()
                    == vs[b] && p.1@[b].picked.cells() == Seq::new(25, |i: int| false)
        }),
{
    let chars = chars_of(input);
    let ranges = line_ranges(&chars);
    let ghost ls = lines(chars@);
    if ranges.len() == 0 {
        return None;
    }
    let first = sub_chars(&chars, ranges[0]);
    let numbers = parse_selected_numbers(&first);
    let ghost total = ls.len() as int;
    let ghost all = ls.subrange(1, total);
    let ghost mut done: Seq<Seq<u32>> = Seq::empty();
    let mut boards: Vec<Board> = Vec::new();
    let mut idx: usize = 1;
    assert(ls.subrange(1, total) =~= all);
    assert(prepend(done, boards_of(ls.subrange(1, total))) =~~= boards_of(all));
    while idx < ranges.len()
        invariant
            chars@ == input@,
            ls == lines(chars@),
            total == ls.len(),
            ranges@.len() == ls.len(),
            all == ls.subrange(1, total),
            forall|j: int|
                0 <= j < ranges@.len() ==> (#[trigger] ranges@[j]).0 <= ranges@[j].1
                    <= chars@.len(),
            forall|j: int|
                0 <= j < ranges@.len() ==> chars@.subrange(ranges@[j].0 as int, ranges@[j].1 as int)
                    == #[trigger] ls[j],
            1 <= idx <= ranges@.len(),
            boards_of(all) == prepend(done, boards_of(ls.subrange(idx as int, total))),
            boards@.len() == done.len(),
            forall|b: int|
                0 <= b < done.len() ==> (#[trigger] boards@[b]).wf() && boards@[b].values.cells()
                    == done[b] && boards@[b].picked.cells() == Seq::new(25, |i: int| false),
        decreases ranges@.len() - idx,
    {
        let ghost rest = ls.subrange(idx as int, total);
        if ranges.len() - idx < 6 {
            assert(boards_of(rest) is None);
            return None;
        }
        let mut values: Vec<u32> = Vec::new();
        let mut line_no: usize = 1;
        assert(rest.subrange(1, 1) =~= Seq::<Seq<char>>::empty());
        while line_no < 6
            invariant
                1 <= line_no <= 6,
                idx + 6 <= ranges.len(),
                rest == ls.subrange(idx as int, total),
                total == ls.len(),
                ranges@.len() == ls.len(),
                1 <= idx,
                forall|j: int|
                    0 <= j < ranges@.len() ==> (#[trigger] ranges@[j]).0 <= ranges@[j].1
                        <= chars@.len(),
                forall|j: int|
                    0 <= j < ranges@.len() ==> chars@.subrange(
                        ranges@[j].0 as int,
                        ranges@[j].1 as int,
                    ) == #[trigger] ls[j],
                values@ == board_numbers(rest.subrange(1, line_no as int)),
            decreases 6 - line_no,
        {
            assert(rest.subrange(1, line_no + 1).drop_last() =~= rest.subrange(1, line_no as int));
            assert(rest.subrange(1, line_no + 1).last() == ls[idx + line_no]);
            let line = sub_chars(&chars, ranges[idx + line_no]);
            let next_values = parse_board_line(&line);
            let ghost before = values@;
            let mut k: usize = 0;
            while k < next_values.len()
                invariant
                    k <= next_values@.len(),
                    values@ == before + next_values@.take(k as int),
                decreases next_values@.len() - k,
            {
                values.push(next_values[k]);
                k = k + 1;
                assert(values@ =~= before + next_values@.take(k as int));
            }
            assert(next_values@.take(k as int) =~= next_values@);
            line_no = line_no + 1;
        }
        if values.len() != 25 {
            assert(boards_of(rest) is None);
            return None;
        }
        let board = Board {
            values: Array2D::from_slice(values.as_slice(), WIDTH, WIDTH),
            picked: Array2D::fill(false, WIDTH, WIDTH),
        };
        assert(board.values.cells() =~= values@);
        assert(board.picked.cells() =~= Seq::new(25, |i: int| false));
        proof {
            let next_rest = ls.subrange(idx + 6, total);
            assert(rest.subrange(6, rest.len() as int) =~= next_rest);
            let vals = values@;
            match boards_of(next_rest) {
                Some(bs) => {
                    assert(done + (seq![vals] + bs) =~= done.push(vals) + bs);
                },
                None => {},
            }
            done = done.push(vals);
        }
        boards.push(board);
        idx = idx + 6;
    }
    assert(ls.subrange(idx as int, total) =~= Seq::<Seq<char>>::empty());
    assert(done + Seq::<Seq<u32>>::empty() =~= done);
    assert(first@ == ls[0]);
    Some((numbers, boards))
}

/// Which cells of a board holding `vals` are marked once the numbers `drawn` are called.
pub open spec fn marks_after(vals: Seq<u32>, drawn: Seq<u32>) -> Seq<bool> {
    Seq::new(vals.len(), |i: int| drawn.contains(vals[i]))
}

/// The board holding `vals` has a full row or column once `ns[0..=j]` are called.
pub open spec fn wins(vals: Seq<u32>, ns: Seq<u32>, j: int) -> bool {
    has_line(marks_after(vals, ns.take(j + 1)))
}

/// The sum of the first `n` cells of `vals` that `m` leaves unmarked.
pub open spec fn unmarked_sum(vals: Seq<u32>, m: Seq<bool>, n: int) -> int
    decreases n,
{
    if n <= 0 {
        0
    } else {
        unmarked_sum(vals, m, n - 1) + (if m[n - 1] {
            0
        } else {
            vals[n - 1] as int
        })
    }
}

/// The score of the board holding `vals` when it wins on the call of `ns[j]`.
pub open spec fn final_score(vals: Seq<u32>, ns: Seq<u32>, j: int) -> int {
    unmarked_sum(vals, marks_after(vals, ns.take(j + 1)), 25) * ns[j] as int
}

/// The score of the first board to win, calls taken in order and, on one call, boards in
/// order, searching from call `j` and board `b` on.
pub open spec fn first_win(ns: Seq<u32>, vs: Seq<Seq<u32>>, j: int, b: int) -> Option<int>
    decreases ns.len() - j, vs.len() - b,
{
    if j < 0 || j >= ns.len() || b < 0 {
        None
    } else if b >= vs.len() {
        first_win(ns, vs, j + 1, 0)
    } else if wins(vs[b], ns, j) {
        Some(final_score(vs[b], ns, j))
    } else {
        first_win(ns, vs, j, b + 1)
    }
}

proof fn lemma_unmarked_bound(vals: Seq<u32>, m: Seq<bool>, n: int)
    requires
        0 <= n <= vals.len(),
        n <= m.len(),
    ensures
        0 <= unmarked_sum(vals, m, n) <= n * u32::MAX,
    decreases n,
{
    if n > 0 {
        lemma_unmarked_bound(vals, m, n - 1);
    }
}

/// The sum of the unmarked numbers of `board`.
pub fn sum_unpicked_board_values(board: &Board) -> (r: u64)
    requires
        board.wf(),
    ensures
        r == unmarked_sum(board.values.cells(), board.picked.cells(), 25),
{
    let values = board.values.iter();
    let picked = board.picked.iter();
    let mut sum: u64 = 0;
    let mut k: usize = 0;
    while k < 25
        invariant
            board.wf(),
            values@.len() == 25,
            picked@.len() == 25,
            forall|i: int| 0 <= i < 25 ==> *values@[i] == board.values.cells()[i],
            forall|i: int| 0 <= i < 25 ==> *picked@[i] == board.picked.cells()[i],
            k <= 25,
            sum == unmarked_sum(board.values.cells(), board.picked.cells(), k as int),
        decreases 25 - k,
    {
        proof {
            lemma_unmarked_bound(board.values.cells(), board.picked.cells(), k as int + 1);
        }
        if !*picked[k] {
            sum = sum + *values[k] as u64;
        }
        k = k + 1;
    }
    sum
}

proof fn lemma_push_contains(s: Seq<u32>, x: u32, y: u32)
    ensures
        s.push(x).contains(y) == (s.contains(y) || y == x),
{
    if s.contains(y) {
        let k = choose|k: int| 0 <= k < s.len() && s[k] == y;
        assert(s.push(x)[k] == y);
    }
    if y == x {
        assert(s.push(x)[s.len() as int] == x);
    }
    if s.push(x).contains(y) {
        let k = choose|k: int| 0 <= k < s.push(x).len() && s.push(x)[k] == y;
        if k < s.len() {
            assert(s[k] == y);
        }
    }
}

proof fn lemma_marks_step(vals: Seq<u32>, ns: Seq<u32>, j: int)
    requires
        0 <= j < ns.len(),
    ensures
        marks_after(vals, ns.take(j + 1)) == Seq::new(
            vals.len(),
            |i: int| marks_after(vals, ns.take(j))[i] || vals[i] == ns[j],
        ),
{
    assert(ns.take(j + 1) =~= ns.take(j).push(ns[j]));
    assert forall|i: int| 0 <= i < vals.len() implies #[trigger] ns.take(j + 1).contains(vals[i])
        == (ns.take(j).contains(vals[i]) || vals[i] == ns[j]) by {
        lemma_push_contains(ns.take(j), ns[j], vals[i]);
    }
    assert(marks_after(vals, ns.take(j + 1)) =~= Seq::new(
        vals.len(),
        |i: int| marks_after(vals, ns.take(j))[i] || vals[i] == ns[j],
    ));
}

/// The boards `boards` hold the numbers `vs`, each marked as far as calls `ns[0..j]`.
pub open spec fn boards_at(boards: Seq<Board>, vs: Seq<Seq<u32>>, ns: Seq<u32>, j: int, upto: int) -> bool {
    &&& boards.len() == vs.len()
    &&& forall|b: int|
        0 <= b < boards.len() ==> (#[trigger] boards[b]).wf() && boards[b].values.cells() == vs[b]
            && boards[b].picked.cells() == marks_after(
            vs[b],
            ns.take(if b < upto {
                j + 1
            } else {
                j
            }),
        )
}

/// The score of the first board to win; `None` when the input does not have the expected
/// shape, no board wins, or the score exceeds `u32::MAX`.
pub fn part_one(input: &str) -> (r: Option<u32>)
    ensures
        r is Some <==> (bingo_input(lines(input@)) matches Some(p) && first_win(p.0, p.1, 0, 0)
            matches Some(s) && s <= u32::MAX),
        r matches Some(v) ==> first_win(
            bingo_input(lines(input@)).unwrap().0,
            bingo_input(lines(input@)).unwrap().1,
            0,
            0,
        ) == Some(v as int),
{
    let (numbers, mut boards) = match parse_input(input) {
        Some(p) => p,
        None => {
            return None;
        },
    };
    let ghost ns = bingo_input(lines(input@)).unwrap().0;
    let ghost vs = bingo_input(lines(input@)).unwrap().1;
    assert(ns.take(0) =~= Seq::<u32>::empty());
    assert forall|b: int| 0 <= b < boards@.len() implies #[trigger] boards@[b].picked.cells()
        == marks_after(vs[b], ns.take(0)) by {
        assert(boards@[b].picked.cells() =~= marks_after(vs[b], ns.take(0)));
    }
    let mut j: usize = 0;
    while j < numbers.len()
        invariant
            bingo_input(lines(input@)) == Some((ns, vs)),
            numbers@ == ns,
            j <= ns.len(),
            boards_at(boards@, vs, ns, j as int, 0),
            first_win(ns, vs, 0, 0) == first_win(ns, vs, j as int, 0),
        decreases ns.len() - j,
    {
        let n = numbers[j];
        let mut bi: usize = 0;
        while bi < boards.len()
            invariant
                bingo_input(lines(input@)) == Some((ns, vs)),
                numbers@ == ns,
                j < ns.len(),
                n == ns[j as int],
                bi <= vs.len(),
                boards_at(boards@, vs, ns, j as int, bi as int),
                first_win(ns, vs, 0, 0) == first_win(ns, vs, j as int, bi as int),
            decreases vs.len() - bi,
        {
            proof {
                lemma_marks_step(vs[bi as int], ns, j as int);
            }
            let ghost before = boards@;
            let won = boards[bi].pick(n);
            assert(boards@[bi as int].picked.cells() =~= marks_after(vs[bi as int], ns.take(j + 1)));
            assert forall|b: int| 0 <= b < boards@.len() && b != bi implies #[trigger] boards@[b]
                == before[b] by {}
            if won {
                let sum = sum_unpicked_board_values(&boards[bi]);
                proof {
                    lemma_unmarked_bound(vs[bi as int], boards@[bi as int].picked.cells(), 25);
                }
                return match sum.checked_mul(n as u64) {
                    Some(score) => if score > u32::MAX as u64 {
                        None
                    } else {
                        Some(score as u32)
                    },
                    None => None,
                };
            }
            bi = bi + 1;
        }
        j = j + 1;
    }
    None
}

/// The first call, from `ns[j]` on, after which the board holding `vals` wins.
pub open spec fn first_draw(vals: Seq<u32>, ns: Seq<u32>, j: int) -> Option<int>
    decreases ns.len() - j,
{
    if j < 0 || j >= ns.len() {
        None
    } else if wins(vals, ns, j) {
        Some(j)
    } else {
        first_draw(vals, ns, j + 1)
    }
}

/// The board holding `vals` wins on a call no later than `ns[j]`.
pub open spec fn won_by(vals: Seq<u32>, ns: Seq<u32>, j: int) -> bool {
    first_draw(vals, ns, 0) matches Some(d) && d <= j
}

/// Among the first `k` boards, the winning call and the board that wins last: the latest
/// winning call, and on it the last board in order.
pub open spec fn latest(ns: Seq<u32>, vs: Seq<Seq<u32>>, k: int) -> (int, int)
    decreases k,
{
    if k <= 0 {
        (-1, -1)
    } else {
        let (d, i) = latest(ns, vs, k - 1);
        let e = first_draw(vs[k - 1], ns, 0).unwrap();
        if e >= d {
            (e, k - 1)
        } else {
            (d, i)
        }
    }
}

/// The score of the board that wins last, when there are boards and every one wins.
pub open spec fn last_win(ns: Seq<u32>, vs: Seq<Seq<u32>>) -> Option<int> {
    if vs.len() > 0 && forall|b: int| 0 <= b < vs.len() ==> #[trigger] first_draw(vs[b], ns, 0) is Some {
        let (j, b) = latest(ns, vs, vs.len() as int);
        Some(final_score(vs[b], ns, j))
    } else {
        None
    }
}

pub open spec fn count_true(s: Seq<bool>) -> nat
    decreases s.len(),
{
    if s.len() == 0 {
        0
    } else {
        count_true(s.drop_last()) + (if s.last() {
            1nat
        } else {
            0nat
        })
    }
}

proof fn lemma_count_true(s: Seq<bool>)
    ensures
        count_true(s) <= s.len(),
        count_true(s) == s.len() <==> forall|i: int| 0 <= i < s.len() ==> #[trigger] s[i],
    decreases s.len(),
{
    if s.len() > 0 {
        lemma_count_true(s.drop_last());
        if forall|i: int| 0 <= i < s.len() ==> #[trigger] s[i] {
            assert forall|i: int| 0 <= i < s.drop_last().len() implies #[trigger] s.drop_last()[i] by {
                assert(s[i]);
            }
        }
        if count_true(s) == s.len() {
            assert forall|i: int| 0 <= i < s.len() implies #[trigger] s[i] by {
                if i < s.len() - 1 {
                    assert(s[i] == s.drop_last()[i]);
                }
            }
        }
    }
}

proof fn lemma_count_set(s: Seq<bool>, i: int)
    requires
        0 <= i < s.len(),
        !s[i],
    ensures
        count_true(s.update(i, true)) == count_true(s) + 1,
    decreases s.len(),
{
    let t = s.update(i, true);
    if i == s.len() - 1 {
        assert(t.drop_last() =~= s.drop_last());
    } else {
        assert(t.drop_last() =~= s.drop_last().update(i, true));
        lemma_count_set(s.drop_last(), i);
    }
}

proof fn lemma_latest_below(ns: Seq<u32>, vs: Seq<Seq<u32>>, k: int, j: int)
    requires
        0 <= k <= vs.len(),
        j >= 0,
        forall|b: int|
            0 <= b < k ==> #[trigger] won_by(vs[b], ns, j),
    ensures
        latest(ns, vs, k).0 <= j,
    decreases k,
{
    if k > 0 {
        lemma_latest_below(ns, vs, k - 1, j);
        assert(won_by(vs[k - 1], ns, j));
    }
}

proof fn lemma_latest_is(ns: Seq<u32>, vs: Seq<Seq<u32>>, k: int, j: int, w: int)
    requires
        0 <= w < k <= vs.len(),
        j >= 0,
        first_draw(vs[w], ns, 0) == Some(j),
        forall|b: int|
            0 <= b < w ==> #[trigger] won_by(vs[b], ns, j),
        forall|b: int|
            w < b < vs.len() ==> #[trigger] won_by(vs[b], ns, j - 1),
    ensures
        latest(ns, vs, k) == (j, w),
    decreases k,
{
    if k == w + 1 {
        lemma_latest_below(ns, vs, w, j);
    } else {
        lemma_latest_is(ns, vs, k - 1, j, w);
        assert(won_by(vs[k - 1], ns, j - 1));
    }
}

/// The score of the board that wins last; `None` when the input does not have the expected
/// shape, some board never wins, there is no board, or the score exceeds `u32::MAX`.
pub fn part_two(input: &str) -> (r: Option<u32>)
    ensures
        r is Some <==> (bingo_input(lines(input@)) matches Some(p) && last_win(p.0, p.1) matches Some(
            s,
        ) && s <= u32::MAX),
        r matches Some(v) ==> last_win(
            bingo_input(lines(input@)).unwrap().0,
            bingo_input(lines(input@)).unwrap().1,
        ) == Some(v as int),
{
    let (numbers, mut boards) = match parse_input(input) {
        Some(p) => p,
        None => {
            return None;
        },
    };
    let ghost ns = bingo_input(lines(input@)).unwrap().0;
    let ghost vs = bingo_input(lines(input@)).unwrap().1;
    assert(ns.take(0) =~= Seq::<u32>::empty());
    assert forall|b: int| 0 <= b < boards@.len() implies #[trigger] boards@[b].picked.cells()
        == marks_after(vs[b], ns.take(0)) by {
        assert(boards@[b].picked.cells() =~= marks_after(vs[b], ns.take(0)));
    }
    let mut done_state: Vec<bool> = vec![false; boards.len()];
    let mut done_count: usize = 0;
    proof {
        lemma_count_zero(done_state@);
    }
    let mut j: usize = 0;
    while j < numbers.len()
        invariant
            bingo_input(lines(input@)) == Some((ns, vs)),
            numbers@ == ns,
            j <= ns.len(),
            boards@.len() == vs.len(),
            done_state@.len() == vs.len(),
            done_count == count_true(done_state@),
            vs.len() > 0 ==> done_count < vs.len(),
            forall|b: int|
                0 <= b < vs.len() ==> (#[trigger] boards@[b]).wf() && boards@[b].values.cells()
                    == vs[b],
            forall|b: int|
                0 <= b < vs.len() && !done_state@[b] ==> (#[trigger] boards@[b]).picked.cells()
                    == marks_after(vs[b], ns.take(j as int)) && first_draw(vs[b], ns, 0)
                    == first_draw(vs[b], ns, j as int),
            forall|b: int|
                0 <= b < vs.len() && #[trigger] done_state@[b] ==> won_by(vs[b], ns, j - 1),
        decreases ns.len() - j,
    {
        let n = numbers[j];
        let mut bi: usize = 0;
        while bi < boards.len()
            invariant
                bingo_input(lines(input@)) == Some((ns, vs)),
                numbers@ == ns,
                j < ns.len(),
                n == ns[j as int],
                bi <= vs.len(),
                boards@.len() == vs.len(),
                done_state@.len() == vs.len(),
                done_count == count_true(done_state@),
                vs.len() > 0 ==> done_count < vs.len(),
                forall|b: int|
                    0 <= b < vs.len() ==> (#[trigger] boards@[b]).wf() && boards@[b].values.cells()
                        == vs[b],
                forall|b: int|
                    0 <= b < vs.len() && !done_state@[b] ==> (#[trigger] boards@[b]).picked.cells()
                        == marks_after(
                        vs[b],
                        ns.take(
                            if b < bi {
                                j + 1
                            } else {
                                j as int
                            },
                        ),
                    ) && first_draw(vs[b], ns, 0) == first_draw(
                        vs[b],
                        ns,
                        if b < bi {
                            j + 1
                        } else {
                            j as int
                        },
                    ),
                forall|b: int|
                    0 <= b < vs.len() && #[trigger] done_state@[b] ==> won_by(
                        vs[b],
                        ns,
                        if b < bi {
                            j as int
                        } else {
                            j - 1
                        },
                    ),
            decreases vs.len() - bi,
        {
            if done_state[bi] {
                bi = bi + 1;
                continue;
            }
            proof {
                lemma_marks_step(vs[bi as int], ns, j as int);
            }
            let ghost before = boards@;
            let won = boards[bi].pick(n);
            assert(boards@[bi as int].picked.cells() =~= marks_after(vs[bi as int], ns.take(j + 1)));
            assert forall|b: int| 0 <= b < boards@.len() && b != bi implies #[trigger] boards@[b]
                == before[b] by {}
            if !won {
                bi = bi + 1;
                continue;
            }
            proof {
                lemma_count_set(done_state@, bi as int);
            }
            done_state.set(bi, true);
            done_count = done_count + 1;
            if done_count == done_state.len() {
                proof {
                    lemma_count_true(done_state@);
                    assert forall|b: int| 0 <= b < bi implies #[trigger] won_by(vs[b], ns, j as int) by {
                        assert(done_state@[b]);
                    }
                    assert forall|b: int| bi < b < vs.len() implies #[trigger] won_by(vs[b], ns, j - 1) by {
                        assert(done_state@[b]);
                    }
                    lemma_latest_is(ns, vs, vs.len() as int, j as int, bi as int);
                    assert forall|b: int| 0 <= b < vs.len() implies #[trigger] first_draw(vs[b], ns, 0) is Some by {
                        assert(done_state@[b]);
                    }
                }
                let sum = sum_unpicked_board_values(&boards[bi]);
                return match sum.checked_mul(n as u64) {
                    Some(score) => if score > u32::MAX as u64 {
                        None
                    } else {
                        Some(score as u32)
                    },
                    None => None,
                };
            }
            bi = bi + 1;
        }
        j = j + 1;
    }
    proof {
        if vs.len() > 0 {
            lemma_count_true(done_state@);
            assert(exists|b: int| 0 <= b < vs.len() && !done_state@[b]);
            let b = choose|b: int| 0 <= b < vs.len() && !done_state@[b];
            assert(boards@[b].picked.cells() == marks_after(vs[b], ns.take(j as int)));
            assert(first_draw(vs[b], ns, 0) is None);
        }
    }
    None
}

proof fn lemma_count_zero(s: Seq<bool>)
    requires
        forall|i: int| 0 <= i < s.len() ==> !#[trigger] s[i],
    ensures
        count_true(s) == 0,
    decreases s.len(),
{
    if s.len() > 0 {
        lemma_count_zero(s.drop_last());
    }
}

} // verus!
