// A fixed-size, row-major two-dimensional grid with bounds-checked access, row, column,
// index and Moore-neighborhood traversal.
use itertools::Itertools;
use vstd::prelude::*;

verus! {

/// A `(row, col)` position in a grid.
pub type Array2DIndex = (usize, usize);

/// Every `(row, col)` with `row < rows` and `col < cols`, the column varying fastest.
pub open spec fn row_major_indices(rows: nat, cols: nat) -> Seq<Array2DIndex> {
    Seq::new(rows * cols, |k: int| ((k / cols as int) as usize, (k % cols as int) as usize))
}

/// `row * cols + col` stays below `rows * cols` for an in-bounds position.
pub proof fn lemma_offset_bounds(rows: int, cols: int, row: int, col: int)
    requires
        0 <= row < rows,
        0 <= col < cols,
    ensures
        0 <= row * cols + col < rows * cols,
        cols * row + col == row * cols + col,
        (row * cols + col) / cols == row,
        (row * cols + col) % cols == col,
{
    assert(0 <= row * cols + col < rows * cols) by (nonlinear_arith)
        requires
            0 <= row < rows,
            0 <= col < cols,
    ;
    assert(cols * row == row * cols) by (nonlinear_arith);
    vstd::arithmetic::div_mod::lemma_fundamental_div_mod_converse(
        row * cols + col,
        cols,
        row,
        col,
    );
}

/// The positions in row-major order are exactly the in-bounds positions, each once: the
/// `k`-th lies inside the grid, `(row, col)` stands at `row * cols + col`, and each comes
/// strictly before the next in row-major order (so none repeats).
pub proof fn lemma_row_major_indices(rows: nat, cols: nat)
    requires
        rows <= usize::MAX,
        cols <= usize::MAX,
    ensures
        row_major_indices(rows, cols).len() == rows * cols,
        forall|k: int|
            #![trigger row_major_indices(rows, cols)[k]]
            0 <= k < rows * cols ==> {
                let p = row_major_indices(rows, cols)[k];
                p.0 < rows && p.1 < cols
            },
        forall|row: int, col: int|
            0 <= row < rows && 0 <= col < cols ==> #[trigger] row_major_indices(rows, cols)[row
                * cols + col] == (row as usize, col as usize),
        forall|k1: int, k2: int|
            #![trigger row_major_indices(rows, cols)[k1], row_major_indices(rows, cols)[k2]]
            0 <= k1 < k2 < rows * cols ==> {
                let p = row_major_indices(rows, cols)[k1];
                let q = row_major_indices(rows, cols)[k2];
                p.0 < q.0 || (p.0 == q.0 && p.1 < q.1)
            },
{
    let s = row_major_indices(rows, cols);
    assert forall|k: int| 0 <= k < rows * cols implies {
        let p = #[trigger] s[k];
        p.0 < rows && p.1 < cols
    } by {
        lemma_index_split(rows as int, cols as int, k);
    }
    assert forall|row: int, col: int| 0 <= row < rows && 0 <= col < cols implies #[trigger] s[row
        * cols + col] == (row as usize, col as usize) by {
        lemma_offset_bounds(rows as int, cols as int, row, col);
    }
    assert forall|k1: int, k2: int| 0 <= k1 < k2 < rows * cols implies {
        let p = #[trigger] s[k1];
        let q = #[trigger] s[k2];
        p.0 < q.0 || (p.0 == q.0 && p.1 < q.1)
    } by {
        lemma_index_split(rows as int, cols as int, k1);
        lemma_index_split(rows as int, cols as int, k2);
        vstd::arithmetic::div_mod::lemma_div_is_ordered(k1, k2, cols as int);
        vstd::arithmetic::div_mod::lemma_fundamental_div_mod(k1, cols as int);
        vstd::arithmetic::div_mod::lemma_fundamental_div_mod(k2, cols as int);
    }
}

proof fn lemma_index_split(rows: int, cols: int, k: int)
    requires
        rows >= 0,
        0 <= k < rows * cols,
    ensures
        cols > 0,
        0 <= k / cols < rows,
        0 <= k % cols < cols,
{
    if cols <= 0 {
        assert(rows * cols <= 0) by (nonlinear_arith)
            requires
                cols <= 0,
                rows >= 0,
        ;
    }
    vstd::arithmetic::div_mod::lemma_div_pos_is_pos(k, cols);
    vstd::arithmetic::div_mod::lemma_mod_bound(k, cols);
    if k / cols >= rows {
        vstd::arithmetic::div_mod::lemma_fundamental_div_mod(k, cols);
        assert(k >= rows * cols) by (nonlinear_arith)
            requires
                k == cols * (k / cols) + k % cols,
                k / cols >= rows,
                k % cols >= 0,
                cols > 0,
        ;
    }
}

/// Relies on itertools' `cartesian_product`: each item of the first range paired with
/// each item of the second, the second varying fastest.
#[verifier::external_body]
fn index_pairs(rows: usize, cols: usize) -> (r: Vec<Array2DIndex>)
    requires
        rows * cols <= usize::MAX,
    ensures
        r@ == row_major_indices(rows as nat, cols as nat),
{
    (0..rows).cartesian_product(0..cols).collect()
}

/// The Moore neighbor of `center` selected by `moore` in `0..9` (row-major over the 3x3
/// block around `center`), or `None` when a coordinate would leave the range of `usize`.
pub open spec fn moore_neighbor_spec(center: Array2DIndex, moore: int) -> Option<Array2DIndex> {
    let row = center.0 as int + (moore / 3 - 1);
    let col = center.1 as int + (moore % 3 - 1);
    if 0 <= row <= usize::MAX && 0 <= col <= usize::MAX {
        Some((row as usize, col as usize))
    } else {
        None
    }
}

/// The nine slots of the 3x3 block around `center`, the center slot emptied unless
/// `include_center` holds.
pub open spec fn moore_cells(center: Array2DIndex, include_center: bool) -> Seq<
    Option<Array2DIndex>,
> {
    Seq::new(
        9,
        |k: int|
            if k == 4 && !include_center {
                None
            } else {
                moore_neighbor_spec(center, k)
            },
    )
}

/// The positions held in `cells` from slot `from` on, in slot order, empty slots skipped.
pub open spec fn pending_from(cells: Seq<Option<Array2DIndex>>, from: int) -> Seq<Array2DIndex>
    decreases cells.len() - from,
{
    if from < 0 || from >= cells.len() {
        Seq::empty()
    } else {
        let rest = pending_from(cells, from + 1);
        match cells[from] {
            Some(i) => seq![i] + rest,
            None => rest,
        }
    }
}

/// The Moore neighborhood of `center` in enumeration order.
pub open spec fn moore_neighbors(center: Array2DIndex, include_center: bool) -> Seq<Array2DIndex> {
    pending_from(moore_cells(center, include_center), 0)
}

/// Returns the Moore neighbor of `center` selected by `moore`, or `None` when a coordinate
/// would overflow.
fn moore_neighbor(center: Array2DIndex, moore: usize) -> (r: Option<Array2DIndex>)
    requires
        moore < 9,
    ensures
        r == moore_neighbor_spec(center, moore as int),
{
    let (row, col) = center;
    let r = if moore < 3 {
        row.checked_sub(1)
    } else if moore < 6 {
        Some(row)
    } else {
        row.checked_add(1)
    };
    let c = if moore % 3 == 0 {
        col.checked_sub(1)
    } else if moore % 3 == 1 {
        Some(col)
    } else {
        col.checked_add(1)
    };
    match (r, c) {
        (Some(r), Some(c)) => Some((r, c)),
        _ => None,
    }
}

/// Walks the Moore neighborhood of a position.
pub struct MooreNeighborhoodIterator {
    cells: [Option<Array2DIndex>; 9],
    index: usize,
}

impl MooreNeighborhoodIterator {
    /// The positions still to be handed out, in order.
    pub closed spec fn pending(&self) -> Seq<Array2DIndex> {
        pending_from(self.cells@, self.index as int)
    }

    /// Starts a walk over the neighborhood of `center`, which holds `center` itself only
    /// when `include_center` does.
    pub fn new(center: Array2DIndex, include_center: bool) -> (r: MooreNeighborhoodIterator)
        ensures
            r.pending() == moore_neighbors(center, include_center),
    {
        let middle = if include_center {
            moore_neighbor(center, 4)
        } else {
            None
        };
        let cells = [
            moore_neighbor(center, 0),
            moore_neighbor(center, 1),
            moore_neighbor(center, 2),
            moore_neighbor(center, 3),
            middle,
            moore_neighbor(center, 5),
            moore_neighbor(center, 6),
            moore_neighbor(center, 7),
            moore_neighbor(center, 8),
        ];
        assert(cells@ =~= moore_cells(center, include_center));
        MooreNeighborhoodIterator { cells, index: 0 }
    }

    /// Hands out the next position of the neighborhood, or `None` once all have been.
    pub fn next(&mut self) -> (r: Option<Array2DIndex>)
        ensures
            old(self).pending().len() == 0 ==> r is None && final(self).pending().len() == 0,
            old(self).pending().len() > 0 ==> r == Some(old(self).pending()[0])
                && final(self).pending() == old(self).pending().drop_first(),
    {
        let mut next = self.index;
        while next < 9 && self.cells[next].is_none()
            invariant
                self.index <= next,
                self.cells@.len() == 9,
                pending_from(self.cells@, self.index as int) == pending_from(
                    self.cells@,
                    next as int,
                ),
            decreases 9 - next,
        {
            next = next + 1;
        }
        if next < 9 {
            self.index = next + 1;
            self.cells[next]
        } else {
            self.index = next;
            None
        }
    }
}

/// A fixed-size two-dimensional grid stored in row-major order.
#[derive(Clone)]
pub struct Array2D<T> {
    values: Vec<T>,
    rows: usize,
    cols: usize,
}

impl<T> Array2D<T> {
    /// Number of rows.
    pub closed spec fn spec_rows(&self) -> nat {
        self.rows as nat
    }

    /// Number of columns.
    pub closed spec fn spec_cols(&self) -> nat {
        self.cols as nat
    }

    /// The cells in row-major order.
    pub closed spec fn cells(&self) -> Seq<T> {
        self.values@
    }

    /// The backing sequence holds exactly `rows * cols` cells.
    pub open spec fn wf(&self) -> bool {
        self.cells().len() == self.spec_rows() * self.spec_cols()
    }

    pub open spec fn in_bounds(&self, row: int, col: int) -> bool {
        0 <= row < self.spec_rows() && 0 <= col < self.spec_cols()
    }

    /// Linear position of `(row, col)` in the backing sequence.
    pub open spec fn offset(&self, row: int, col: int) -> int {
        row * self.spec_cols() + col
    }

    pub open spec fn cell(&self, row: int, col: int) -> T {
        self.cells()[self.offset(row, col)]
    }

    /// An in-bounds position has its offset inside the backing sequence.
    pub proof fn lemma_offset_in_cells(&self, row: int, col: int)
        requires
            self.wf(),
            self.in_bounds(row, col),
        ensures
            0 <= self.offset(row, col) < self.cells().len(),
    {
        lemma_offset_bounds(self.spec_rows() as int, self.spec_cols() as int, row, col);
    }

    /// The cells at those of `positions` that lie inside the grid, in order.
    pub open spec fn lookup_all(&self, positions: Seq<Array2DIndex>) -> Seq<T>
        decreases positions.len(),
    {
        if positions.len() == 0 {
            Seq::empty()
        } else {
            let p = positions[0];
            let head = if self.in_bounds(p.0 as int, p.1 as int) {
                seq![self.cell(p.0 as int, p.1 as int)]
            } else {
                Seq::empty()
            };
            head + self.lookup_all(positions.drop_first())
        }
    }

    /// The cells of the Moore neighborhood of `(row, col)` that lie inside the grid.
    pub open spec fn adjacent_cells(&self, row: usize, col: usize) -> Seq<T> {
        self.lookup_all(moore_neighbors((row, col), false))
    }

    /// The cells at the Moore neighbors of `(row, col)` from offset slot `k` on that lie inside
    /// the grid, the slots running row-major over the 3x3 block with the center left out.
    pub open spec fn adjacent_from(&self, row: int, col: int, k: int) -> Seq<T>
        decreases 9 - k,
    {
        if k < 0 || k >= 9 {
            Seq::empty()
        } else {
            let r = row + (k / 3 - 1);
            let c = col + (k % 3 - 1);
            let head = if k != 4 && self.in_bounds(r, c) {
                seq![self.cell(r, c)]
            } else {
                Seq::empty()
            };
            head + self.adjacent_from(row, col, k + 1)
        }
    }

    /// `v` is the cell at one of the eight Moore neighbors of `(row, col)` inside the grid.
    pub open spec fn is_neighbor_value(&self, row: int, col: int, v: T) -> bool {
        exists|dr: int, dc: int|
            #![trigger self.cell(row + dr, col + dc)]
            -1 <= dr <= 1 && -1 <= dc <= 1 && !(dr == 0 && dc == 0) && self.in_bounds(
                row + dr,
                col + dc,
            ) && v == self.cell(row + dr, col + dc)
    }

    proof fn lemma_lookup_pending(&self, row: usize, col: usize, k: int)
        requires
            self.wf(),
            0 <= k <= 9,
        ensures
            self.lookup_all(pending_from(moore_cells((row, col), false), k)) == self.adjacent_from(
                row as int,
                col as int,
                k,
            ),
        decreases 9 - k,
    {
        let cells = moore_cells((row, col), false);
        if k < 9 {
            self.lemma_lookup_pending(row, col, k + 1);
            let rest = pending_from(cells, k + 1);
            match cells[k] {
                Some(p) => {
                    assert((seq![p] + rest).drop_first() =~= rest);
                },
                None => {},
            }
        }
    }

    proof fn lemma_adjacent_from_len(&self, row: int, col: int, k: int)
        requires
            0 <= k <= 9,
        ensures
            self.adjacent_from(row, col, k).len() <= (if k <= 4 { 8 - k } else { 9 - k }),
        decreases 9 - k,
    {
        if k < 9 {
            self.lemma_adjacent_from_len(row, col, k + 1);
        }
    }

    proof fn lemma_adjacent_from_interior(&self, row: int, col: int, k: int)
        requires
            0 <= k <= 9,
            1 <= row && row + 1 < self.spec_rows(),
            1 <= col && col + 1 < self.spec_cols(),
        ensures
            self.adjacent_from(row, col, k).len() == (if k <= 4 { 8 - k } else { 9 - k }),
        decreases 9 - k,
    {
        if k < 9 {
            self.lemma_adjacent_from_interior(row, col, k + 1);
        }
    }

    proof fn lemma_adjacent_from_member(&self, row: int, col: int, k: int, i: int)
        requires
            0 <= k <= 9,
            0 <= i < self.adjacent_from(row, col, k).len(),
        ensures
            self.is_neighbor_value(row, col, self.adjacent_from(row, col, k)[i]),
        decreases 9 - k,
    {
        let r = row + (k / 3 - 1);
        let c = col + (k % 3 - 1);
        let rest = self.adjacent_from(row, col, k + 1);
        if k != 4 && self.in_bounds(r, c) {
            if i == 0 {
                assert(self.adjacent_from(row, col, k)[i] == self.cell(
                    row + (k / 3 - 1),
                    col + (k % 3 - 1),
                ));
            } else {
                self.lemma_adjacent_from_member(row, col, k + 1, i - 1);
                assert(self.adjacent_from(row, col, k)[i] == rest[i - 1]);
            }
        } else {
            self.lemma_adjacent_from_member(row, col, k + 1, i);
            assert(self.adjacent_from(row, col, k) =~= rest);
        }
    }

    /// The neighbors of a cell are those of its eight Moore neighbors that lie inside the
    /// grid, in the fixed row-major offset order: at most eight of them, each the cell at
    /// one neighbor offset, and all eight for a cell away from every edge.
    pub proof fn lemma_adjacent_cells(&self, row: usize, col: usize)
        requires
            self.wf(),
        ensures
            self.adjacent_cells(row, col) == self.adjacent_from(row as int, col as int, 0),
            self.adjacent_cells(row, col).len() <= 8,
            forall|i: int|
                0 <= i < self.adjacent_cells(row, col).len() ==> self.is_neighbor_value(
                    row as int,
                    col as int,
                    #[trigger] self.adjacent_cells(row, col)[i],
                ),
            (1 <= row && row + 1 < self.spec_rows() && 1 <= col && col + 1 < self.spec_cols())
                ==> self.adjacent_cells(row, col).len() == 8,
    {
        self.lemma_lookup_pending(row, col, 0);
        self.lemma_adjacent_from_len(row as int, col as int, 0);
        if 1 <= row && row + 1 < self.spec_rows() && 1 <= col && col + 1 < self.spec_cols() {
            self.lemma_adjacent_from_interior(row as int, col as int, 0);
        }
        assert forall|i: int| 0 <= i < self.adjacent_cells(row, col).len() implies self.is_neighbor_value(
            row as int,
            col as int,
            #[trigger] self.adjacent_cells(row, col)[i],
        ) by {
            self.lemma_adjacent_from_member(row as int, col as int, 0, i);
        }
    }

    /// Writing a cell changes that cell alone: reading it back gives the written value, and
    /// every other cell keeps its value.
    pub proof fn lemma_set_then_get(&self, after: &Self, row: int, col: int, value: T)
        requires
            self.wf(),
            self.in_bounds(row, col),
            after.same_shape(self),
            after.cells() == self.cells().update(self.offset(row, col), value),
        ensures
            after.wf(),
            after.cell(row, col) == value,
            forall|r: int, c: int|
                #![trigger after.cell(r, c)]
                self.in_bounds(r, c) && !(r == row && c == col) ==> after.cell(r, c) == self.cell(
                    r,
                    c,
                ),
    {
        self.lemma_offset_in_cells(row, col);
        assert forall|r: int, c: int| self.in_bounds(r, c) && !(r == row && c == col) implies #[trigger] after.cell(r, c) == self.cell(r, c) by {
            lemma_offset_bounds(self.spec_rows() as int, self.spec_cols() as int, r, c);
            lemma_offset_bounds(self.spec_rows() as int, self.spec_cols() as int, row, col);
        }
    }

    /// A grid built from a row-major sequence holds at `(row, col)` a copy of the element at
    /// `row * cols + col`.
    pub proof fn lemma_from_slice_cells(&self, values: Seq<T>) where T: Clone
        requires
            self.wf(),
            values.len() == self.spec_rows() * self.spec_cols(),
            forall|i: int| 0 <= i < values.len() ==> cloned(values[i], #[trigger] self.cells()[i]),
        ensures
            forall|row: int, col: int|
                #![trigger self.cell(row, col)]
                self.in_bounds(row, col) ==> cloned(
                    values[row * self.spec_cols() + col],
                    self.cell(row, col),
                ),
    {
        assert forall|row: int, col: int| self.in_bounds(row, col) implies cloned(
            values[row * self.spec_cols() + col],
            #[trigger] self.cell(row, col),
        ) by {
            self.lemma_offset_in_cells(row, col);
        }
    }

    /// Same dimensions as `other`.
    pub open spec fn same_shape(&self, other: &Self) -> bool {
        self.spec_rows() == other.spec_rows() && self.spec_cols() == other.spec_cols()
    }

    /// Creates a new grid filled with the default value.
    pub fn new(rows: usize, cols: usize) -> (r: Self) where T: Default + Clone
        requires
            rows * cols <= usize::MAX,
        ensures
            r.wf(),
            r.spec_rows() == rows,
            r.spec_cols() == cols,
            exists|d: T|
                call_ensures(T::default, (), d) && forall|i: int|
                    0 <= i < r.cells().len() ==> cloned(d, #[trigger] r.cells()[i]),
    {
        let d = T::default();
        let values = vec![d; rows * cols];
        Array2D { values, rows, cols }
    }

    /// Creates a new grid with every cell a copy of `value`.
    pub fn fill(value: T, rows: usize, cols: usize) -> (r: Self) where T: Clone
        requires
            rows * cols <= usize::MAX,
        ensures
            r.wf(),
            r.spec_rows() == rows,
            r.spec_cols() == cols,
            forall|i: int| 0 <= i < r.cells().len() ==> cloned(value, #[trigger] r.cells()[i]),
    {
        let values = vec![value; rows * cols];
        Array2D { values, rows, cols }
    }

    /// Creates a new grid from `values` read in row-major order.
    pub fn from_slice(values: &[T], rows: usize, cols: usize) -> (r: Self) where T: Clone
        requires
            values@.len() == rows * cols,
        ensures
            r.wf(),
            r.spec_rows() == rows,
            r.spec_cols() == cols,
            forall|i: int|
                0 <= i < values@.len() ==> cloned(values@[i], #[trigger] r.cells()[i]),
    {
        let mut copy: Vec<T> = Vec::new();
        let mut i: usize = 0;
        while i < values.len()
            invariant
                i <= values@.len(),
                copy@.len() == i,
                forall|k: int| 0 <= k < i ==> cloned(values@[k], #[trigger] copy@[k]),
            decreases values@.len() - i,
        {
            copy.push(values[i].clone());
            i = i + 1;
        }
        Array2D { values: copy, rows, cols }
    }

    /// Returns the number of rows.
    pub fn rows(&self) -> (r: usize)
        ensures
            r == self.spec_rows(),
    {
        self.rows
    }

    /// Returns the number of columns.
    pub fn cols(&self) -> (r: usize)
        ensures
            r == self.spec_cols(),
    {
        self.cols
    }

    /// Returns the linear position of `(row, col)`, or `None` when it lies outside the grid.
    pub fn get_index(&self, row: usize, col: usize) -> (r: Option<usize>)
        requires
            self.wf(),
        ensures
            r is Some <==> self.in_bounds(row as int, col as int),
            r matches Some(i) ==> i == self.offset(row as int, col as int) && i < self.cells().len(),
    {
        if row < self.rows && col < self.cols {
            proof {
                lemma_offset_bounds(self.rows as int, self.cols as int, row as int, col as int);
                broadcast use vstd::std_specs::vec::axiom_spec_len;

                assert(self.values.len() == self.values@.len());
            }
            Some(self.cols * row + col)
        } else {
            None
        }
    }

    /// Returns the cell at `(row, col)`, or `None` when it lies outside the grid.
    pub fn get(&self, row: usize, col: usize) -> (r: Option<&T>)
        requires
            self.wf(),
        ensures
            r is Some <==> self.in_bounds(row as int, col as int),
            r matches Some(v) ==> *v == self.cell(row as int, col as int),
    {
        match self.get_index(row, col) {
            Some(index) => Some(&self.values[index]),
            None => None,
        }
    }

    /// Returns the cell at `(row, col)` for writing, or `None` when it lies outside the grid.
    pub fn get_mut(&mut self, row: usize, col: usize) -> (r: Option<&mut T>)
        requires
            old(self).wf(),
        ensures
            final(self).wf(),
            final(self).same_shape(old(self)),
            r is Some <==> old(self).in_bounds(row as int, col as int),
            r matches Some(v) ==> *v == old(self).cell(row as int, col as int)
                && final(self).cells() == old(self).cells().update(
                old(self).offset(row as int, col as int),
                *final(v),
            ),
            r is None ==> final(self).cells() == old(self).cells(),
    {
        match self.get_index(row, col) {
            Some(index) => Some(&mut self.values[index]),
            None => None,
        }
    }

    /// Returns the cell at `index`, or `None` when it lies outside the grid.
    pub fn get_tuple(&self, index: Array2DIndex) -> (r: Option<&T>)
        requires
            self.wf(),
        ensures
            r is Some <==> self.in_bounds(index.0 as int, index.1 as int),
            r matches Some(v) ==> *v == self.cell(index.0 as int, index.1 as int),
    {
        self.get(index.0, index.1)
    }

    /// Returns the cell at `index` for writing, or `None` when it lies outside the grid.
    pub fn get_mut_tuple(&mut self, index: Array2DIndex) -> (r: Option<&mut T>)
        requires
            old(self).wf(),
        ensures
            final(self).wf(),
            final(self).same_shape(old(self)),
            r is Some <==> old(self).in_bounds(index.0 as int, index.1 as int),
            r matches Some(v) ==> *v == old(self).cell(index.0 as int, index.1 as int)
                && final(self).cells() == old(self).cells().update(
                old(self).offset(index.0 as int, index.1 as int),
                *final(v),
            ),
            r is None ==> final(self).cells() == old(self).cells(),
    {
        self.get_mut(index.0, index.1)
    }

    /// Overwrites the cell at `(row, col)`, which must lie inside the grid.
    pub fn set(&mut self, row: usize, col: usize, value: T)
        requires
            old(self).wf(),
            old(self).in_bounds(row as int, col as int),
        ensures
            final(self).wf(),
            final(self).same_shape(old(self)),
            final(self).cells() == old(self).cells().update(
                old(self).offset(row as int, col as int),
                value,
            ),
    {
        let index = self.get_index(row, col).unwrap();
        self.values.set(index, value);
    }

    /// Returns the cell at `index`, which must lie inside the grid.
    pub fn index(&self, index: Array2DIndex) -> (r: &T)
        requires
            self.wf(),
            self.in_bounds(index.0 as int, index.1 as int),
        ensures
            *r == self.cell(index.0 as int, index.1 as int),
    {
        self.get(index.0, index.1).unwrap()
    }

    /// Returns the cell at `index` for writing; `index` must lie inside the grid.
    pub fn index_mut(&mut self, index: Array2DIndex) -> (r: &mut T)
        requires
            old(self).wf(),
            old(self).in_bounds(index.0 as int, index.1 as int),
        ensures
            *r == old(self).cell(index.0 as int, index.1 as int),
            final(self).wf(),
            final(self).same_shape(old(self)),
            final(self).cells() == old(self).cells().update(
                old(self).offset(index.0 as int, index.1 as int),
                *final(r),
            ),
    {
        self.get_mut(index.0, index.1).unwrap()
    }

    /// Returns every cell in row-major order.
    pub fn iter(&self) -> (r: Vec<&T>)
        requires
            self.wf(),
        ensures
            r@.len() == self.cells().len(),
            r@.len() == self.spec_rows() * self.spec_cols(),
            forall|k: int| 0 <= k < r@.len() ==> *r@[k] == self.cells()[k],
    {
        let mut out: Vec<&T> = Vec::new();
        let mut k: usize = 0;
        while k < self.values.len()
            invariant
                k <= self.values@.len(),
                out@.len() == k,
                forall|j: int| 0 <= j < k ==> *out@[j] == self.values@[j],
            decreases self.values@.len() - k,
        {
            out.push(&self.values[k]);
            k = k + 1;
        }
        out
    }

    /// Returns every cell, in row-major order, as one mutable slice.
    pub fn iter_mut(&mut self) -> (r: &mut [T])
        requires
            old(self).wf(),
        ensures
            r@ == old(self).cells(),
            final(self).same_shape(old(self)),
            final(self).cells() == final(r)@,
    {
        self.values.as_mut_slice()
    }

    /// Returns every position of the grid in row-major order.
    pub fn iter_indices(&self) -> (r: Vec<Array2DIndex>)
        requires
            self.wf(),
        ensures
            r@ == row_major_indices(self.spec_rows(), self.spec_cols()),
    {
        proof {
            broadcast use vstd::std_specs::vec::axiom_spec_len;

            assert(self.values.len() == self.values@.len());
        }
        index_pairs(self.rows, self.cols)
    }

    /// Returns the cells of `row` in column order.
    pub fn iter_row(&self, row: usize) -> (r: Vec<&T>)
        requires
            self.wf(),
            row < self.spec_rows(),
        ensures
            r@.len() == self.spec_cols(),
            forall|j: int| 0 <= j < r@.len() ==> *r@[j] == self.cell(row as int, j),
    {
        let mut out: Vec<&T> = Vec::new();
        let mut col: usize = 0;
        while col < self.cols
            invariant
                self.wf(),
                row < self.spec_rows(),
                col <= self.spec_cols(),
                out@.len() == col,
                forall|j: int| 0 <= j < col ==> *out@[j] == self.cell(row as int, j),
            decreases self.spec_cols() - col,
        {
            let index = self.get_index(row, col).unwrap();
            out.push(&self.values[index]);
            col = col + 1;
        }
        out
    }

    /// Returns the cells of `col` in row order.
    pub fn iter_col(&self, col: usize) -> (r: Vec<&T>)
        requires
            self.wf(),
            col < self.spec_cols(),
        ensures
            r@.len() == self.spec_rows(),
            forall|i: int| 0 <= i < r@.len() ==> *r@[i] == self.cell(i, col as int),
    {
        let mut out: Vec<&T> = Vec::new();
        let mut row: usize = 0;
        while row < self.rows
            invariant
                self.wf(),
                col < self.spec_cols(),
                row <= self.spec_rows(),
                out@.len() == row,
                forall|i: int| 0 <= i < row ==> *out@[i] == self.cell(i, col as int),
            decreases self.spec_rows() - row,
        {
            let index = self.get_index(row, col).unwrap();
            out.push(&self.values[index]);
            row = row + 1;
        }
        out
    }

    /// Returns each row, in order, as the sequence of its cells.
    pub fn iter_rows(&self) -> (r: Vec<Vec<&T>>)
        requires
            self.wf(),
        ensures
            r@.len() == self.spec_rows(),
            forall|i: int| 0 <= i < r@.len() ==> (#[trigger] r@[i])@.len() == self.spec_cols(),
            forall|i: int, j: int|
                0 <= i < r@.len() && 0 <= j < self.spec_cols() ==> *(#[trigger] r@[i]@[j])
                    == self.cell(i, j),
    {
        let mut out: Vec<Vec<&T>> = Vec::new();
        let mut row: usize = 0;
        while row < self.rows
            invariant
                self.wf(),
                row <= self.spec_rows(),
                out@.len() == row,
                forall|i: int| 0 <= i < row ==> (#[trigger] out@[i])@.len() == self.spec_cols(),
                forall|i: int, j: int|
                    0 <= i < row && 0 <= j < self.spec_cols() ==> *(#[trigger] out@[i]@[j])
                        == self.cell(i, j),
            decreases self.spec_rows() - row,
        {
            out.push(self.iter_row(row));
            row = row + 1;
        }
        out
    }

    /// Returns each column, in order, as the sequence of its cells.
    pub fn iter_cols(&self) -> (r: Vec<Vec<&T>>)
        requires
            self.wf(),
        ensures
            r@.len() == self.spec_cols(),
            forall|j: int| 0 <= j < r@.len() ==> (#[trigger] r@[j])@.len() == self.spec_rows(),
            forall|j: int, i: int|
                0 <= j < r@.len() && 0 <= i < self.spec_rows() ==> *(#[trigger] r@[j]@[i])
                    == self.cell(i, j),
    {
        let mut out: Vec<Vec<&T>> = Vec::new();
        let mut col: usize = 0;
        while col < self.cols
            invariant
                self.wf(),
                col <= self.spec_cols(),
                out@.len() == col,
                forall|j: int| 0 <= j < col ==> (#[trigger] out@[j])@.len() == self.spec_rows(),
                forall|j: int, i: int|
                    0 <= j < col && 0 <= i < self.spec_rows() ==> *(#[trigger] out@[j]@[i])
                        == self.cell(i, j),
            decreases self.spec_cols() - col,
        {
            out.push(self.iter_col(col));
            col = col + 1;
        }
        out
    }

    /// Returns every cell with its position, in row-major order.
    pub fn enumerate(&self) -> (r: Vec<(Array2DIndex, &T)>)
        requires
            self.wf(),
        ensures
            r@.len() == self.cells().len(),
            forall|k: int|
                0 <= k < r@.len() ==> (#[trigger] r@[k]).0 == row_major_indices(
                    self.spec_rows(),
                    self.spec_cols(),
                )[k] && *r@[k].1 == self.cells()[k],
    {
        let indices = self.iter_indices();
        let cells = self.iter();
        let mut out: Vec<(Array2DIndex, &T)> = Vec::new();
        let mut k: usize = 0;
        while k < cells.len()
            invariant
                self.wf(),
                indices@ == row_major_indices(self.spec_rows(), self.spec_cols()),
                cells@.len() == self.cells().len(),
                forall|j: int| 0 <= j < cells@.len() ==> *cells@[j] == self.cells()[j],
                k <= cells@.len(),
                out@.len() == k,
                forall|j: int|
                    0 <= j < k ==> (#[trigger] out@[j]).0 == indices@[j] && *out@[j].1
                        == self.cells()[j],
            decreases cells@.len() - k,
        {
            out.push((indices[k], cells[k]));
            k = k + 1;
        }
        out
    }

    /// Returns every position in row-major order, beside every cell as one mutable slice.
    pub fn enumerate_mut(&mut self) -> (r: (Vec<Array2DIndex>, &mut [T]))
        requires
            old(self).wf(),
        ensures
            r.0@ == row_major_indices(old(self).spec_rows(), old(self).spec_cols()),
            r.1@ == old(self).cells(),
            final(self).same_shape(old(self)),
            final(self).cells() == final(r.1)@,
    {
        let indices = self.iter_indices();
        (indices, self.iter_mut())
    }

    /// Returns the cells of the Moore neighborhood of `(row, col)` that lie inside the grid.
    pub fn iter_adjacent(&self, row: usize, col: usize) -> (r: Vec<&T>)
        requires
            self.wf(),
        ensures
            r@.len() == self.adjacent_cells(row, col).len(),
            forall|k: int| 0 <= k < r@.len() ==> *r@[k] == self.adjacent_cells(row, col)[k],
    {
        let mut it = MooreNeighborhoodIterator::new((row, col), false);
        let mut out: Vec<&T> = Vec::new();
        let ghost total = self.adjacent_cells(row, col);
        let ghost mut done: Seq<T> = Seq::empty();
        loop
            invariant
                self.wf(),
                done.len() == out@.len(),
                forall|k: int| 0 <= k < out@.len() ==> *out@[k] == done[k],
                done + self.lookup_all(it.pending()) == total,
            ensures
                done == total,
                done.len() == out@.len(),
                forall|k: int| 0 <= k < out@.len() ==> *out@[k] == done[k],
            decreases it.pending().len(),
        {
            let ghost before = it.pending();
            match it.next() {
                Some(index) => {
                    let ghost head = if self.in_bounds(index.0 as int, index.1 as int) {
                        seq![self.cell(index.0 as int, index.1 as int)]
                    } else {
                        Seq::<T>::empty()
                    };
                    assert(self.lookup_all(before) == head + self.lookup_all(it.pending()));
                    match self.get_tuple(index) {
                        Some(v) => {
                            out.push(v);
                        },
                        None => {},
                    }
                    proof {
                        assert(done + self.lookup_all(before) == done + head + self.lookup_all(
                            it.pending(),
                        ));
                        done = done + head;
                    }
                },
                None => {
                    assert(done + self.lookup_all(before) =~= done);
                    break ;
                },
            }
        }
        out
    }
}

} // verus!
