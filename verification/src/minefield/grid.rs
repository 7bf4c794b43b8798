//! A fixed-size two-dimensional container stored as one row-major sequence.

use super::text::{join, Render};
use vstd::prelude::*;
use vstd::arithmetic::div_mod::{lemma_fundamental_div_mod, lemma_fundamental_div_mod_converse};
use vstd::arithmetic::mul::{lemma_mul_inequality, lemma_mul_is_commutative};
use vstd::seq_lib::lemma_seq_contains_after_push;
use vstd::string::StringExecFns;

verus! {

/// Why a grid operation was refused.
#[derive(Debug, Clone, Copy, PartialEq, Eq, Structural)]
pub enum GridError {
    /// The backing data does not hold exactly `height * width` values.
    SizeMismatch,
    /// The position lies outside the grid.
    OutOfRange,
}

/// A `height` by `width` table of values, kept row after row in one vector.
#[derive(Debug)]
pub struct Grid<T> {
    height: usize,
    width: usize,
    data: Vec<T>,
}

/// Whether `(row, col)` names a cell of a `height` by `width` grid.
pub open spec fn in_range(height: nat, width: nat, row: int, col: int) -> bool {
    0 <= row < height && 0 <= col < width
}

/// The place of cell `(row, col)` in the row-major sequence.
pub open spec fn offset_of(width: nat, row: int, col: int) -> int {
    row * width + col
}

/// The cell that sits at `offset` in the row-major sequence.
pub open spec fn coords_of(width: nat, offset: int) -> (int, int) {
    (offset / (width as int), offset % (width as int))
}

/// The offset of a cell of the grid is smaller than the number of cells.
pub proof fn lemma_offset_in_bounds(height: nat, width: nat, row: int, col: int)
    requires
        in_range(height, width, row, col),
    ensures
        0 <= offset_of(width, row, col) < height * width,
{
    lemma_mul_inequality(row, height - 1, width as int);
    assert((height - 1) * width == height * width - width) by (nonlinear_arith);
    assert(0 <= row * width) by (nonlinear_arith)
        requires
            0 <= row,
            0 <= width,
    ;
}

/// An offset below the number of cells names a cell of the grid, and that
/// cell's offset is the one started from.
pub proof fn lemma_coords_in_range(height: nat, width: nat, offset: int)
    requires
        0 <= offset < height * width,
    ensures
        in_range(height, width, coords_of(width, offset).0, coords_of(width, offset).1),
        offset_of(width, coords_of(width, offset).0, coords_of(width, offset).1) == offset,
{
    assert(width > 0) by (nonlinear_arith)
        requires
            0 <= offset < height * width,
    ;
    let w = width as int;
    lemma_fundamental_div_mod(offset, w);
    lemma_mul_is_commutative(w, offset / w);
    assert(0 <= offset % w < w);
    assert(0 <= offset / w) by (nonlinear_arith)
        requires
            0 <= offset,
            0 < w,
    ;
    assert(offset / w < height) by (nonlinear_arith)
        requires
            offset == (offset / w) * w + offset % w,
            0 <= offset % w,
            offset < height * w,
            0 < w,
    ;
}

/// A cell's offset leads back to the cell.
pub proof fn lemma_coords_of_offset(height: nat, width: nat, row: int, col: int)
    requires
        in_range(height, width, row, col),
    ensures
        coords_of(width, offset_of(width, row, col)) == (row, col),
{
    let w = width as int;
    lemma_mul_is_commutative(w, row);
    lemma_fundamental_div_mod_converse(offset_of(width, row, col), w, row, col);
}

/// Whether `q` is one of the eight positions that touch `p`, diagonals
/// included. A position is not adjacent to itself.
pub open spec fn adjacent(p: (int, int), q: (int, int)) -> bool {
    &&& p != q
    &&& -1 <= q.0 - p.0 <= 1
    &&& -1 <= q.1 - p.1 <= 1
}

/// Row-major order on positions: an earlier row first, then an earlier column.
pub open spec fn row_major_before(p: (usize, usize), q: (usize, usize)) -> bool {
    p.0 < q.0 || (p.0 == q.0 && p.1 < q.1)
}

/// How many coordinates `y` with `0 <= y < limit` are at most one step away
/// from `x`.
pub open spec fn span(limit: nat, x: int) -> int {
    let lo = if x > 0 {
        x - 1
    } else {
        0
    };
    let hi = if x + 1 < limit {
        x + 1
    } else {
        limit - 1
    };
    if lo <= hi {
        hi - lo + 1
    } else {
        0
    }
}


impl<T> View for Grid<T> {
    type V = Seq<T>;

    /// The values of the grid, row after row.
    closed spec fn view(&self) -> Seq<T> {
        self.data@
    }
}

impl<T> Grid<T> {
    /// The number of rows.
    pub closed spec fn height(&self) -> nat {
        self.height as nat
    }

    /// The number of columns.
    pub closed spec fn width(&self) -> nat {
        self.width as nat
    }

    /// The grid holds one value for each of its `height * width` cells, and
    /// its sides and the number of its cells fit the machine's word.
    pub open spec fn wf(&self) -> bool {
        &&& self@.len() == self.height() * self.width()
        &&& self@.len() <= usize::MAX
        &&& self.height() <= usize::MAX
        &&& self.width() <= usize::MAX
    }

    /// Whether `(row, col)` names a cell of this grid.
    pub open spec fn has(&self, row: int, col: int) -> bool {
        in_range(self.height(), self.width(), row, col)
    }

    /// The value in cell `(row, col)`.
    pub open spec fn at(&self, row: int, col: int) -> T
        recommends
            self.has(row, col),
    {
        self@[offset_of(self.width(), row, col)]
    }

    /// The number of cells.
    pub open spec fn spec_len(&self) -> usize {
        (self.height() * self.width()) as usize
    }

    /// The number of rows and the number of columns.
    pub open spec fn spec_shape(&self) -> (usize, usize) {
        (self.height() as usize, self.width() as usize)
    }

    /// The offset `row * width + col` of cell `(row, col)`, if the grid has
    /// that cell.
    pub open spec fn spec_index(&self, row: usize, col: usize) -> Option<usize> {
        if self.has(row as int, col as int) {
            Some(offset_of(self.width(), row as int, col as int) as usize)
        } else {
            None
        }
    }

    /// The cell `(index / width, index % width)`, if `index` is below the
    /// number of cells.
    pub open spec fn spec_index_rev(&self, index: usize) -> Option<(usize, usize)> {
        if index < self.height() * self.width() {
            Some(
                (
                    coords_of(self.width(), index as int).0 as usize,
                    coords_of(self.width(), index as int).1 as usize,
                ),
            )
        } else {
            None
        }
    }

    /// Builds a grid over `data`, which must hold `height * width` values.
    pub fn new(height: usize, width: usize, data: Vec<T>) -> (made: Result<Grid<T>, GridError>)
        ensures
            match made {
                Ok(grid) => {
                    &&& data@.len() == height * width
                    &&& grid.wf()
                    &&& grid.height() == height
                    &&& grid.width() == width
                    &&& grid@ == data@
                },
                Err(e) => data@.len() != height * width && e == GridError::SizeMismatch,
            },
    {
        let given: usize = data.len();
        match height.checked_mul(width) {
            Some(size) => {
                if size == given {
                    Ok(Grid { height, width, data })
                } else {
                    Err(GridError::SizeMismatch)
                }
            },
            None => Err(GridError::SizeMismatch),
        }
    }

    /// The number of cells.
    #[verifier::when_used_as_spec(spec_len)]
    pub fn len(&self) -> (n: usize)
        requires
            self.wf(),
        ensures
            n == self.height() * self.width(),
            n == self@.len(),
    {
        self.data.len()
    }

    /// The number of rows and the number of columns.
    #[verifier::when_used_as_spec(spec_shape)]
    pub fn shape(&self) -> (dims: (usize, usize))
        ensures
            dims.0 == self.height(),
            dims.1 == self.width(),
    {
        (self.height, self.width)
    }

    /// The offset of cell `(row, col)` in the row-major sequence, if the
    /// grid has that cell.
    #[verifier::when_used_as_spec(spec_index)]
    pub fn index(&self, row: usize, col: usize) -> (offset: Option<usize>)
        requires
            self.wf(),
        ensures
            offset == self.spec_index(row, col),
            offset matches Some(place) ==> place == row * self.width() + col && place
                < self@.len(),
    {
        if row < self.height && col < self.width {
            proof {
                lemma_offset_in_bounds(self.height(), self.width(), row as int, col as int);
                assert(0 <= row * self.width) by (nonlinear_arith);
                assert(offset_of(self.width(), row as int, col as int) == row * self.width + col);
            }
            Some(row * self.width + col)
        } else {
            None
        }
    }

    /// The cell that sits at `index` in the row-major sequence, if `index`
    /// is below the number of cells.
    #[verifier::when_used_as_spec(spec_index_rev)]
    pub fn index_rev(&self, index: usize) -> (cell: Option<(usize, usize)>)
        requires
            self.wf(),
        ensures
            cell == self.spec_index_rev(index),
            cell matches Some(place) ==> self.has(place.0 as int, place.1 as int),
    {
        if index < self.data.len() {
            proof {
                lemma_coords_in_range(self.height(), self.width(), index as int);
            }
            Some((index / self.width, index % self.width))
        } else {
            None
        }
    }

    /// Whether `q` is a cell of this grid that touches `(row, col)`.
    pub open spec fn is_neighbour(&self, row: usize, col: usize, q: (usize, usize)) -> bool {
        &&& self.has(q.0 as int, q.1 as int)
        &&& adjacent((row as int, col as int), (q.0 as int, q.1 as int))
    }

    /// How many cells of this grid touch `(row, col)`.
    pub open spec fn neighbour_count(&self, row: usize, col: usize) -> int {
        span(self.height(), row as int) * span(self.width(), col as int) - if self.has(
            row as int,
            col as int,
        ) {
            1int
        } else {
            0int
        }
    }

    /// The cells of the grid that touch `(row, col)`, in row-major order:
    /// each of them once, never `(row, col)` itself and never a position
    /// outside the grid.
    pub fn neighbours8(&self, row: usize, col: usize) -> (around: Vec<(usize, usize)>)
        requires
            self.wf(),
        ensures
            forall|q: (usize, usize)| around@.contains(q) <==> self.is_neighbour(row, col, q),
            forall|a: int, b: int|
                0 <= a < b < around@.len() ==> row_major_before(
                    #[trigger] around@[a],
                    #[trigger] around@[b],
                ),
            around@.len() == self.neighbour_count(row, col),
            around@.len() <= 8,
    {
        let mut around: Vec<(usize, usize)> = Vec::new();
        if self.height == 0 || self.width == 0 {
            proof {
                assert(span(self.height(), row as int) * span(self.width(), col as int) == 0)
                    by (nonlinear_arith)
                    requires
                        span(self.height(), row as int) == 0 || span(self.width(), col as int)
                            == 0,
                ;
            }
            return around;
        }
        let row_lo: usize = if row > 0 {
            row - 1
        } else {
            0
        };
        let row_hi: usize = if row < self.height - 1 {
            row + 1
        } else {
            self.height - 1
        };
        let col_lo: usize = if col > 0 {
            col - 1
        } else {
            0
        };
        let col_hi: usize = if col < self.width - 1 {
            col + 1
        } else {
            self.width - 1
        };
        if row_lo > row_hi || col_lo > col_hi {
            proof {
                assert(span(self.height(), row as int) * span(self.width(), col as int) == 0)
                    by (nonlinear_arith)
                    requires
                        span(self.height(), row as int) == 0 || span(self.width(), col as int)
                            == 0,
                ;
            }
            return around;
        }
        let ghost rows: int = row_hi - row_lo + 1;
        let ghost cols: int = col_hi - col_lo + 1;
        let ghost centre: (usize, usize) = (row, col);
        assert(rows == span(self.height(), row as int));
        assert(cols == span(self.width(), col as int));
        let mut i: usize = row_lo;
        while i <= row_hi
            invariant
                self.wf(),
                row_lo <= i <= row_hi + 1,
                row_hi < self.height(),
                col_lo <= col_hi < self.width(),
                cols == col_hi - col_lo + 1,
                centre == (row, col),
                self.has(row as int, col as int) ==> row_lo <= row <= row_hi && col_lo <= col
                    <= col_hi,
                forall|q: (usize, usize)|
                    (row_lo <= q.0 <= row_hi && col_lo <= q.1 <= col_hi && q != centre)
                        <==> self.is_neighbour(row, col, q),
                forall|q: (usize, usize)|
                    around@.contains(q) <==> (self.is_neighbour(row, col, q) && q.0 < i),
                forall|a: int, b: int|
                    0 <= a < b < around@.len() ==> row_major_before(
                        #[trigger] around@[a],
                        #[trigger] around@[b],
                    ),
                around@.len() == (i - row_lo) * cols - if self.has(row as int, col as int) && row
                    < i {
                    1int
                } else {
                    0int
                },
            decreases row_hi + 1 - i,
        {
            let mut j: usize = col_lo;
            while j <= col_hi
                invariant
                    self.wf(),
                    row_lo <= i <= row_hi,
                    row_hi < self.height(),
                    col_lo <= j <= col_hi + 1,
                    col_hi < self.width(),
                    cols == col_hi - col_lo + 1,
                    centre == (row, col),
                    self.has(row as int, col as int) ==> row_lo <= row <= row_hi && col_lo <= col
                        <= col_hi,
                    forall|q: (usize, usize)|
                        (row_lo <= q.0 <= row_hi && col_lo <= q.1 <= col_hi && q != centre)
                            <==> self.is_neighbour(row, col, q),
                    forall|q: (usize, usize)|
                        around@.contains(q) <==> (self.is_neighbour(row, col, q) && (q.0 < i || (
                        q.0 == i && q.1 < j))),
                    forall|a: int, b: int|
                        0 <= a < b < around@.len() ==> row_major_before(
                            #[trigger] around@[a],
                            #[trigger] around@[b],
                        ),
                    around@.len() == (i - row_lo) * cols + (j - col_lo) - if self.has(
                        row as int,
                        col as int,
                    ) && (row < i || (row == i && col < j)) {
                        1int
                    } else {
                        0int
                    },
                decreases col_hi + 1 - j,
            {
                if i != row || j != col {
                    let ghost before = around@;
                    around.push((i, j));
                    proof {
                        assert forall|q: (usize, usize)|
                            around@.contains(q) <==> (self.is_neighbour(row, col, q) && (q.0 < i
                                || (q.0 == i && q.1 < j + 1))) by {
                            lemma_seq_contains_after_push(before, (i, j), q);
                        }
                        assert forall|a: int, b: int| 0 <= a < b < around@.len() implies
                            row_major_before(#[trigger] around@[a], #[trigger] around@[b]) by {
                            if b == before.len() {
                                assert(before.contains(before[a]));
                            }
                        }
                    }
                }
                j += 1;
            }
            proof {
                assert((i - row_lo) * cols + cols == (i + 1 - row_lo) * cols)
                    by (nonlinear_arith);
            }
            i += 1;
        }
        proof {
            assert(rows <= 3 && cols <= 3);
            assert(rows * cols <= 9) by (nonlinear_arith)
                requires
                    0 <= rows <= 3,
                    0 <= cols <= 3,
            ;
            if !self.has(row as int, col as int) {
                assert(rows <= 2 || cols <= 2);
                assert(rows * cols <= 8) by (nonlinear_arith)
                    requires
                        0 <= rows <= 3,
                        0 <= cols <= 3,
                        rows <= 2 || cols <= 2,
                ;
            }
        }
        around
    }

    /// In a grid of at least two rows and two columns a corner has three
    /// neighbours, another cell of the border five, and a cell inside eight.
    pub proof fn lemma_neighbour_counts(&self, row: usize, col: usize)
        requires
            self.wf(),
            self.height() >= 2,
            self.width() >= 2,
            self.has(row as int, col as int),
        ensures
            self.neighbour_count(row, col) == if (row == 0 || row == self.height() - 1) && (col
                == 0 || col == self.width() - 1) {
                3int
            } else if row == 0 || row == self.height() - 1 || col == 0 || col == self.width()
                - 1 {
                5int
            } else {
                8int
            },
    {
        let r = span(self.height(), row as int);
        let c = span(self.width(), col as int);
        assert(r == 2 || r == 3);
        assert(c == 2 || c == 3);
        assert(r * c == if r == 2 && c == 2 {
            4int
        } else if r == 3 && c == 3 {
            9int
        } else {
            6int
        }) by (nonlinear_arith)
            requires
                r == 2 || r == 3,
                c == 2 || c == 3,
        ;
    }

    /// The values of the grid, row after row.
    pub fn data(&self) -> (cells: &[T])
        ensures
            cells@ == self@,
    {
        self.data.as_slice()
    }

    /// Puts `value` into cell `(row, col)`; a position outside the grid is
    /// refused and nothing changes.
    pub fn set(&mut self, row: usize, col: usize, value: T) -> (done: Result<(), GridError>)
        requires
            old(self).wf(),
        ensures
            final(self).wf(),
            final(self).height() == old(self).height(),
            final(self).width() == old(self).width(),
            old(self).has(row as int, col as int) ==> done == Ok::<(), GridError>(())
                && final(self)@ == old(self)@.update(
                offset_of(old(self).width(), row as int, col as int),
                value,
            ),
            !old(self).has(row as int, col as int) ==> done == Err::<(), GridError>(
                GridError::OutOfRange,
            ) && final(self)@ == old(self)@,
            forall|r: int, c: int|
                old(self).has(r, c) ==> #[trigger] final(self).at(r, c) == if r == row && c
                    == col {
                    value
                } else {
                    old(self).at(r, c)
                },
    {
        match self.index(row, col) {
            Some(i) => {
                self.data[i] = value;
                proof {
                    assert forall|r: int, c: int| old(self).has(r, c) implies #[trigger] self.at(
                        r,
                        c,
                    ) == if r == row && c == col {
                        value
                    } else {
                        old(self).at(r, c)
                    } by {
                        lemma_offset_in_bounds(self.height(), self.width(), r, c);
                        lemma_coords_of_offset(self.height(), self.width(), r, c);
                        lemma_coords_of_offset(
                            self.height(),
                            self.width(),
                            row as int,
                            col as int,
                        );
                    }
                }
                Ok(())
            },
            None => Err(GridError::OutOfRange),
        }
    }

    /// A traversal of the grid in row-major order that starts at the first
    /// cell.
    pub fn iter<'a>(&'a self) -> (cursor: IterGrid<'a, T>)
        requires
            self.wf(),
        ensures
            cursor.wf(),
            cursor.grid() == *self,
            cursor.position() == 0,
    {
        IterGrid { grid: self, curr_ix: 0 }
    }

    /// `index` followed by `index_rev` gives back the cell it started from.
    pub proof fn lemma_index_then_index_rev(&self, row: usize, col: usize)
        requires
            self.wf(),
            self.has(row as int, col as int),
        ensures
            self.index(row, col).is_some(),
            self.index_rev(self.index(row, col).unwrap()) == Some((row, col)),
    {
        lemma_offset_in_bounds(self.height(), self.width(), row as int, col as int);
        lemma_coords_of_offset(self.height(), self.width(), row as int, col as int);
    }

    /// `index_rev` followed by `index` gives back the offset it started from.
    pub proof fn lemma_index_rev_then_index(&self, index: usize)
        requires
            self.wf(),
            index < self.len(),
        ensures
            self.index_rev(index).is_some(),
            self.index(self.index_rev(index).unwrap().0, self.index_rev(index).unwrap().1) == Some(
                index,
            ),
    {
        lemma_coords_in_range(self.height(), self.width(), index as int);
    }
}

impl<T: Copy> Grid<T> {
    /// The value in cell `(row, col)`, if the grid has that cell.
    pub open spec fn spec_get(&self, row: usize, col: usize) -> Option<T> {
        if self.has(row as int, col as int) {
            Some(self.at(row as int, col as int))
        } else {
            None
        }
    }

    /// The value in cell `(row, col)`, if the grid has that cell.
    #[verifier::when_used_as_spec(spec_get)]
    pub fn get(&self, row: usize, col: usize) -> (value: Option<T>)
        requires
            self.wf(),
        ensures
            value == self.spec_get(row, col),
    {
        match self.index(row, col) {
            Some(i) => Some(self.data[i]),
            None => None,
        }
    }
}

/// A position in a row-major walk over a grid.
pub struct IterGrid<'a, T: 'a> {
    grid: &'a Grid<T>,
    curr_ix: usize,
}

impl<'a, T> IterGrid<'a, T> {
    /// The grid that is walked.
    pub closed spec fn grid(&self) -> Grid<T> {
        *self.grid
    }

    /// How many cells the walk has handed out.
    pub closed spec fn position(&self) -> nat {
        self.curr_ix as nat
    }

    /// The walk is over a well-formed grid and has not run past its end.
    pub open spec fn wf(&self) -> bool {
        &&& self.grid().wf()
        &&& self.position() <= self.grid()@.len()
    }

    /// Hands out the next cell as `(row, col, value)` and moves on, or
    /// `None` once every cell has been handed out.
    pub fn next(&mut self) -> (item: Option<(usize, usize, &'a T)>)
        requires
            old(self).wf(),
        ensures
            final(self).wf(),
            final(self).grid() == old(self).grid(),
            old(self).position() < old(self).grid()@.len() ==> {
                &&& final(self).position() == old(self).position() + 1
                &&& item matches Some(triple)
                &&& old(self).grid().index_rev(old(self).position() as usize) == Some(
                    (triple.0, triple.1),
                )
                &&& *triple.2 == old(self).grid()@[old(self).position() as int]
            },
            old(self).position() >= old(self).grid()@.len() ==> {
                &&& final(self).position() == old(self).position()
                &&& item.is_none()
            },
    {
        match self.grid.index_rev(self.curr_ix) {
            Some((i, j)) => {
                let value = &self.grid.data[self.curr_ix];
                self.curr_ix += 1;
                Some((i, j, value))
            },
            None => None,
        }
    }
}

impl<T: Render> Grid<T> {
    /// The texts of the first `count` cells of row `row`.
    pub open spec fn cell_texts(&self, row: int, count: nat) -> Seq<Seq<char>> {
        Seq::new(count, |c: int| self.at(row, c).text())
    }

    /// The text of row `row`: the texts of its cells with a space between
    /// each two of them.
    pub open spec fn row_text(&self, row: int) -> Seq<char> {
        join(self.cell_texts(row, self.width()), seq![' '])
    }

    /// The texts of the first `count` rows.
    pub open spec fn row_texts(&self, count: nat) -> Seq<Seq<char>> {
        Seq::new(count, |r: int| self.row_text(r))
    }

    /// The text of the grid: the texts of its rows with a line break between
    /// each two of them.
    pub open spec fn text(&self) -> Seq<char> {
        join(self.row_texts(self.height()), seq!['\n'])
    }

    /// The grid as text, one line for each row and a space between the cells
    /// of a row.
    pub fn to_string(&self) -> (out: String)
        requires
            self.wf(),
        ensures
            out@ == self.text(),
    {
        let mut out = String::new();
        let mut i: usize = 0;
        proof {
            reveal_strlit(" ");
            reveal_strlit("\n");
        }
        while i < self.height
            invariant
                self.wf(),
                i <= self.height(),
                out@ == join(self.row_texts(i as nat), seq!['\n']),
                " "@ == seq![' '],
                "\n"@ == seq!['\n'],
            decreases self.height() - i,
        {
            let mut line = String::new();
            let mut j: usize = 0;
            while j < self.width
                invariant
                    self.wf(),
                    i < self.height(),
                    j <= self.width(),
                    line@ == join(self.cell_texts(i as int, j as nat), seq![' ']),
                    " "@ == seq![' '],
                decreases self.width() - j,
            {
                if j > 0 {
                    line.append(" ");
                }
                match self.index(i, j) {
                    Some(place) => {
                        self.data[place].render(&mut line);
                    },
                    None => {},
                }
                proof {
                    let longer = self.cell_texts(i as int, (j + 1) as nat);
                    assert(longer.drop_last() =~= self.cell_texts(i as int, j as nat));
                    assert(longer.last() == self.at(i as int, j as int).text());
                    assert(line@ =~= join(longer, seq![' ']));
                }
                j += 1;
            }
            if i > 0 {
                out.append("\n");
            }
            out.append(line.as_str());
            proof {
                let longer = self.row_texts((i + 1) as nat);
                assert(longer.drop_last() =~= self.row_texts(i as nat));
                assert(longer.last() == self.row_text(i as int));
                assert(out@ =~= join(longer, seq!['\n']));
            }
            i += 1;
        }
        out
    }
}

} // verus!
