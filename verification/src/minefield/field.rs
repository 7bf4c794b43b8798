//! The bomb layout: which cells hold a bomb, and for every other cell how many
//! bombs touch it.

use super::grid::{
    adjacent, lemma_coords_in_range, lemma_coords_of_offset, lemma_offset_in_bounds, offset_of,
    row_major_before, Grid, GridError,
};
use vstd::prelude::*;
use super::sampling::sample_indices;
use super::text::{decimal, Render};
use vstd::seq_lib::lemma_seq_contains_after_push;
use vstd::string::StringExecFns;

verus! {

/// What lies under a cell.
#[derive(Debug, Copy, Clone, PartialEq, Eq, Structural)]
pub enum Cell {
    /// A bomb.
    Bomb,
    /// No bomb; the number says how many of the cells around hold one.
    Clean(u8),
}

/// How many entries of `bombs` touch the position `(row, col)`. An entry that
/// is listed twice counts twice.
pub open spec fn hits(bombs: Seq<(usize, usize)>, row: int, col: int) -> nat
    decreases bombs.len(),
{
    if bombs.len() == 0 {
        0
    } else {
        hits(bombs.drop_last(), row, col) + if adjacent(
            (bombs.last().0 as int, bombs.last().1 as int),
            (row, col),
        ) {
            1nat
        } else {
            0nat
        }
    }
}

/// What the cell at `(row, col)` holds once `bombs` have been buried, when it
/// held `before`: a bomb where one is buried or was there already, and else
/// its count raised by one for each buried bomb that touches it.
pub open spec fn buried_cell(before: Cell, bombs: Seq<(usize, usize)>, row: int, col: int) -> Cell {
    if bombs.contains((row as usize, col as usize)) {
        Cell::Bomb
    } else {
        match before {
            Cell::Bomb => Cell::Bomb,
            Cell::Clean(n) => Cell::Clean((n + hits(bombs, row, col)) as u8),
        }
    }
}

/// `after` is `before` with `bombs` buried in it.
pub open spec fn buried(before: Grid<Cell>, bombs: Seq<(usize, usize)>, after: Grid<Cell>) -> bool {
    &&& after.wf()
    &&& after.height() == before.height()
    &&& after.width() == before.width()
    &&& forall|r: int, c: int|
        before.has(r, c) ==> #[trigger] after.at(r, c) == buried_cell(before.at(r, c), bombs, r, c)
}

/// No count of `field` leaves the range of a byte when `bombs` are buried.
pub open spec fn counts_fit(field: Grid<Cell>, bombs: Seq<(usize, usize)>) -> bool {
    forall|r: int, c: int|
        field.has(r, c) ==> (#[trigger] field.at(r, c) matches Cell::Clean(n) ==> n + hits(
            bombs,
            r,
            c,
        ) <= u8::MAX)
}

/// A cell with one more bomb beside it.
pub open spec fn bumped(cell: Cell) -> Cell {
    match cell {
        Cell::Bomb => Cell::Bomb,
        Cell::Clean(n) => Cell::Clean((n + 1) as u8),
    }
}

/// One more listed bomb adds one hit to the positions it touches.
pub proof fn lemma_hits_step(bombs: Seq<(usize, usize)>, k: int, row: int, col: int)
    requires
        0 <= k < bombs.len(),
    ensures
        hits(bombs.take(k + 1), row, col) == hits(bombs.take(k), row, col) + if adjacent(
            (bombs[k].0 as int, bombs[k].1 as int),
            (row, col),
        ) {
            1nat
        } else {
            0nat
        },
{
    assert(bombs.take(k + 1).drop_last() =~= bombs.take(k));
}

/// A part of the list hits a position no more often than the whole list.
pub proof fn lemma_hits_prefix(bombs: Seq<(usize, usize)>, k: int, row: int, col: int)
    requires
        0 <= k <= bombs.len(),
    ensures
        hits(bombs.take(k), row, col) <= hits(bombs, row, col),
    decreases bombs.len() - k,
{
    if k == bombs.len() {
        assert(bombs.take(k) =~= bombs);
    } else {
        lemma_hits_step(bombs, k, row, col);
        lemma_hits_prefix(bombs, k + 1, row, col);
    }
}

/// Why a minefield could not be laid out.
#[derive(Debug, Copy, Clone, PartialEq, Eq, Structural)]
pub enum FieldError {
    /// A side of the field is zero, or the field would hold more cells than
    /// the machine can count.
    InvalidDimensions,
    /// More bombs were asked for than the field has cells.
    TooManyBombs,
    /// A bomb was placed outside the field.
    BombOutOfRange,
    /// Two bombs were placed on the same cell.
    DuplicateBomb,
}

/// A field has at least one row and one column, and the number of its cells
/// fits the machine's word.
pub open spec fn valid_dimensions(height: usize, width: usize) -> bool {
    height > 0 && width > 0 && height * width <= usize::MAX
}

/// 1 if `(row, col)` is a cell of `field` that holds a bomb, and 0 if not.
pub open spec fn bomb_at(field: Grid<Cell>, row: int, col: int) -> int {
    if field.has(row, col) && field.at(row, col) == Cell::Bomb {
        1
    } else {
        0
    }
}

/// How many of the eight positions around `(row, col)` hold a bomb.
pub open spec fn bombs_around(field: Grid<Cell>, row: int, col: int) -> int {
    bomb_at(field, row - 1, col - 1) + bomb_at(field, row - 1, col) + bomb_at(
        field,
        row - 1,
        col + 1,
    ) + bomb_at(field, row, col - 1) + bomb_at(field, row, col + 1) + bomb_at(
        field,
        row + 1,
        col - 1,
    ) + bomb_at(field, row + 1, col) + bomb_at(field, row + 1, col + 1)
}

/// The cells of `field` that hold a bomb.
pub open spec fn bomb_positions(field: Grid<Cell>) -> Set<(usize, usize)> {
    Set::new(
        |p: (usize, usize)| field.has(p.0 as int, p.1 as int) && field.at(p.0 as int, p.1 as int)
            == Cell::Bomb,
    )
}

/// Every bomb lies on a cell of a `height` by `width` field.
pub open spec fn all_inside(height: usize, width: usize, bombs: Seq<(usize, usize)>) -> bool {
    forall|k: int| 0 <= k < bombs.len() ==> (#[trigger] bombs[k]).0 < height && bombs[k].1 < width
}

/// What stands against laying `bombs` out on a `height` by `width` field, if
/// anything does. The dimensions are looked at first, then whether every bomb
/// is inside, then whether two bombs share a cell.
pub open spec fn placement_fault(height: usize, width: usize, bombs: Seq<(usize, usize)>) -> Option<
    FieldError,
> {
    if !valid_dimensions(height, width) {
        Some(FieldError::InvalidDimensions)
    } else if !all_inside(height, width, bombs) {
        Some(FieldError::BombOutOfRange)
    } else if !bombs.no_duplicates() {
        Some(FieldError::DuplicateBomb)
    } else {
        None
    }
}

/// 1 if `(row, col)` is listed in `bombs`, and 0 if not.
pub open spec fn listed(bombs: Seq<(usize, usize)>, row: int, col: int) -> int {
    if 0 <= row <= usize::MAX && 0 <= col <= usize::MAX && bombs.contains(
        (row as usize, col as usize),
    ) {
        1
    } else {
        0
    }
}

/// How many of the eight positions around `(row, col)` are listed in `bombs`.
pub open spec fn listed_around(bombs: Seq<(usize, usize)>, row: int, col: int) -> int {
    listed(bombs, row - 1, col - 1) + listed(bombs, row - 1, col) + listed(bombs, row - 1, col + 1)
        + listed(bombs, row, col - 1) + listed(bombs, row, col + 1) + listed(
        bombs,
        row + 1,
        col - 1,
    ) + listed(bombs, row + 1, col) + listed(bombs, row + 1, col + 1)
}

/// When no bomb is listed twice, the hits on a position are the listed
/// positions around it, of which there are at most eight.
pub proof fn lemma_hits_of_distinct(bombs: Seq<(usize, usize)>, row: int, col: int)
    requires
        bombs.no_duplicates(),
    ensures
        hits(bombs, row, col) == listed_around(bombs, row, col),
        hits(bombs, row, col) <= 8,
    decreases bombs.len(),
{
    if bombs.len() == 0 {
    } else {
        let init = bombs.drop_last();
        let b = bombs.last();
        assert(bombs =~= init.push(b));
        assert(!init.contains(b)) by {
            if init.contains(b) {
                let idx = choose|idx: int| 0 <= idx < init.len() && init[idx] == b;
                assert(bombs[idx] == bombs[bombs.len() - 1]);
            }
        }
        lemma_hits_of_distinct(init, row, col);
        lemma_listed_after_push(init, b, row - 1, col - 1);
        lemma_listed_after_push(init, b, row - 1, col);
        lemma_listed_after_push(init, b, row - 1, col + 1);
        lemma_listed_after_push(init, b, row, col - 1);
        lemma_listed_after_push(init, b, row, col + 1);
        lemma_listed_after_push(init, b, row + 1, col - 1);
        lemma_listed_after_push(init, b, row + 1, col);
        lemma_listed_after_push(init, b, row + 1, col + 1);
    }
}

/// Listing one more bomb, not listed before, lists its own position and no
/// other.
proof fn lemma_listed_after_push(init: Seq<(usize, usize)>, b: (usize, usize), row: int, col: int)
    requires
        !init.contains(b),
    ensures
        listed(init.push(b), row, col) == listed(init, row, col) + if row == b.0 && col == b.1 {
            1int
        } else {
            0int
        },
{
    if 0 <= row <= usize::MAX && 0 <= col <= usize::MAX {
        lemma_seq_contains_after_push(init, b, (row as usize, col as usize));
    }
}

/// A bomb layout: a grid that says for each cell whether it holds a bomb and,
/// if not, how many bombs touch it. Once built it does not change.
#[derive(Debug)]
pub struct Minefield {
    field: Grid<Cell>,
    num_bombs: usize,
}

impl Minefield {
    /// The cells of the field.
    pub closed spec fn cells(&self) -> Grid<Cell> {
        self.field
    }

    /// The number of bombs that the field was laid out with.
    pub closed spec fn bomb_total(&self) -> nat {
        self.num_bombs as nat
    }

    /// The field is not empty, its bomb count is the number of its bomb
    /// cells, and every clean cell counts the bombs that touch it.
    pub open spec fn wf(&self) -> bool {
        &&& self.cells().wf()
        &&& self.cells().height() > 0
        &&& self.cells().width() > 0
        &&& self.bomb_total() <= usize::MAX
        &&& bomb_positions(self.cells()).finite()
        &&& bomb_positions(self.cells()).len() == self.bomb_total()
        &&& forall|r: int, c: int|
            self.cells().has(r, c) ==> (#[trigger] self.cells().at(r, c) matches Cell::Clean(n)
                ==> n == bombs_around(self.cells(), r, c))
    }

    /// Buries `bomb_locations` in `field_grid`, one after the other: the cell
    /// becomes a bomb, and every clean cell around it counts one more.
    ///
    /// A location outside the grid stops the work with an error; the locations
    /// before it have then been buried.
    pub fn bury_bombs(field_grid: &mut Grid<Cell>, bomb_locations: &[(usize, usize)]) -> (done: Result<
        (),
        GridError,
    >)
        requires
            old(field_grid).wf(),
            counts_fit(*old(field_grid), bomb_locations@),
        ensures
            done is Ok <==> forall|k: int|
                0 <= k < bomb_locations@.len() ==> old(field_grid).has(
                    (#[trigger] bomb_locations@[k]).0 as int,
                    bomb_locations@[k].1 as int,
                ),
            done is Ok ==> buried(*old(field_grid), bomb_locations@, *final(field_grid)),
            done is Err ==> done == Err::<(), GridError>(GridError::OutOfRange) && exists|k: int|
                {
                    &&& 0 <= k < bomb_locations@.len()
                    &&& !old(field_grid).has(
                        (#[trigger] bomb_locations@[k]).0 as int,
                        bomb_locations@[k].1 as int,
                    )
                    &&& forall|j: int|
                        0 <= j < k ==> old(field_grid).has(
                            (#[trigger] bomb_locations@[j]).0 as int,
                            bomb_locations@[j].1 as int,
                        )
                    &&& buried(*old(field_grid), bomb_locations@.take(k), *final(field_grid))
                },
    {
        let ghost start = *field_grid;
        let ghost bombs = bomb_locations@;
        proof {
            assert forall|r: int, c: int| start.has(r, c) implies #[trigger] start.at(r, c)
                == buried_cell(start.at(r, c), bombs.take(0), r, c) by {
                assert(bombs.take(0) =~= Seq::<(usize, usize)>::empty());
            }
        }
        let mut k: usize = 0;
        while k < bomb_locations.len()
            invariant
                k <= bombs.len(),
                bombs == bomb_locations@,
                start.wf(),
                start == *old(field_grid),
                counts_fit(start, bombs),
                forall|j: int|
                    0 <= j < k ==> start.has((#[trigger] bombs[j]).0 as int, bombs[j].1 as int),
                buried(start, bombs.take(k as int), *field_grid),
            decreases bombs.len() - k,
        {
            let (i_bomb, j_bomb) = bomb_locations[k];
            let ghost prev = *field_grid;
            match field_grid.set(i_bomb, j_bomb, Cell::Bomb) {
                Err(e) => {
                    proof {
                        assert(!start.has(bombs[k as int].0 as int, bombs[k as int].1 as int));
                        assert forall|r: int, c: int| start.has(r, c) implies #[trigger] field_grid.at(
                            r,
                            c,
                        ) == buried_cell(start.at(r, c), bombs.take(k as int), r, c) by {
                            assert(field_grid.at(r, c) == prev.at(r, c));
                        }
                    }
                    return Err(e);
                },
                Ok(()) => {},
            }
            let ghost marked = *field_grid;
            let neighbours = field_grid.neighbours8(i_bomb, j_bomb);
            let mut m: usize = 0;
            while m < neighbours.len()
                invariant
                    m <= neighbours@.len(),
                    k < bombs.len(),
                    (i_bomb, j_bomb) == bombs[k as int],
                    start.wf(),
                    counts_fit(start, bombs),
                    buried(start, bombs.take(k as int), prev),
                    marked.wf(),
                    marked.height() == prev.height(),
                    marked.width() == prev.width(),
                    prev.has(i_bomb as int, j_bomb as int),
                    forall|r: int, c: int|
                        prev.has(r, c) ==> #[trigger] marked.at(r, c) == if r == i_bomb && c
                            == j_bomb {
                            Cell::Bomb
                        } else {
                            prev.at(r, c)
                        },
                    field_grid.wf(),
                    field_grid.height() == marked.height(),
                    field_grid.width() == marked.width(),
                    forall|q: (usize, usize)|
                        neighbours@.contains(q) <==> marked.is_neighbour(i_bomb, j_bomb, q),
                    forall|a: int, b: int|
                        0 <= a < b < neighbours@.len() ==> row_major_before(
                            #[trigger] neighbours@[a],
                            #[trigger] neighbours@[b],
                        ),
                    forall|r: int, c: int|
                        marked.has(r, c) ==> #[trigger] field_grid.at(r, c) == if neighbours@.take(
                            m as int,
                        ).contains((r as usize, c as usize)) {
                            bumped(marked.at(r, c))
                        } else {
                            marked.at(r, c)
                        },
                decreases neighbours@.len() - m,
            {
                let (i_n, j_n) = neighbours[m];
                let ghost seen = neighbours@.take(m as int);
                let ghost current = *field_grid;
                proof {
                    assert(neighbours@.contains(neighbours@[m as int]));
                    assert(marked.is_neighbour(i_bomb, j_bomb, (i_n, j_n)));
                    if seen.contains((i_n, j_n)) {
                        let idx = choose|idx: int| 0 <= idx < seen.len() && seen[idx] == (i_n, j_n);
                        assert(row_major_before(neighbours@[idx], neighbours@[m as int]));
                    }
                    assert(neighbours@.take(m + 1) =~= seen.push((i_n, j_n)));
                }
                if let Some(Cell::Clean(count)) = field_grid.get(i_n, j_n) {
                    proof {
                        assert(current.at(i_n as int, j_n as int) == marked.at(i_n as int, j_n as int));
                        assert(marked.at(i_n as int, j_n as int) == prev.at(i_n as int, j_n as int));
                        assert(prev.at(i_n as int, j_n as int) == buried_cell(
                            start.at(i_n as int, j_n as int),
                            bombs.take(k as int),
                            i_n as int,
                            j_n as int,
                        ));
                        lemma_hits_step(bombs, k as int, i_n as int, j_n as int);
                        lemma_hits_prefix(bombs, k + 1, i_n as int, j_n as int);
                        assert(start.at(i_n as int, j_n as int) is Clean);
                    }
                    let raised = field_grid.set(i_n, j_n, Cell::Clean(count + 1));
                }
                proof {
                    assert forall|r: int, c: int| marked.has(r, c) implies #[trigger] field_grid.at(
                        r,
                        c,
                    ) == if neighbours@.take(m + 1).contains((r as usize, c as usize)) {
                        bumped(marked.at(r, c))
                    } else {
                        marked.at(r, c)
                    } by {
                        lemma_seq_contains_after_push(seen, (i_n, j_n), (r as usize, c as usize));
                        assert(current.at(r, c) == if seen.contains((r as usize, c as usize)) {
                            bumped(marked.at(r, c))
                        } else {
                            marked.at(r, c)
                        });
                    }
                }
                m += 1;
            }
            proof {
                assert(neighbours@.take(m as int) =~= neighbours@);
                assert(bombs.take(k + 1) =~= bombs.take(k as int).push((i_bomb, j_bomb)));
                assert forall|r: int, c: int| start.has(r, c) implies #[trigger] field_grid.at(r, c)
                    == buried_cell(start.at(r, c), bombs.take(k + 1), r, c) by {
                    lemma_seq_contains_after_push(
                        bombs.take(k as int),
                        (i_bomb, j_bomb),
                        (r as usize, c as usize),
                    );
                    lemma_hits_step(bombs, k as int, r, c);
                    lemma_hits_prefix(bombs, k + 1, r, c);
                    assert(prev.at(r, c) == buried_cell(start.at(r, c), bombs.take(k as int), r, c));
                    assert(marked.at(r, c) == if r == i_bomb && c == j_bomb {
                        Cell::Bomb
                    } else {
                        prev.at(r, c)
                    });
                    assert(neighbours@.contains((r as usize, c as usize)) <==> marked.is_neighbour(
                        i_bomb,
                        j_bomb,
                        (r as usize, c as usize),
                    ));
                }
            }
            k += 1;
        }
        proof {
            assert(bombs.take(k as int) =~= bombs);
        }
        Ok(())
    }

    /// A `height` by `width` grid in which every cell is clean and counts no
    /// bomb.
    fn blank(height: usize, width: usize) -> (made: Option<Grid<Cell>>)
        ensures
            made is Some <==> valid_dimensions(height, width),
            made matches Some(grid) ==> {
                &&& grid.wf()
                &&& grid.height() == height
                &&& grid.width() == width
                &&& forall|r: int, c: int| grid.has(r, c) ==> #[trigger] grid.at(r, c) == Cell::Clean(0)
            },
    {
        if height == 0 || width == 0 {
            return None;
        }
        match height.checked_mul(width) {
            None => None,
            Some(size) => {
                let empty_field: Vec<Cell> = vec![Cell::Clean(0); size];
                match Grid::new(height, width, empty_field) {
                    Ok(grid) => {
                        proof {
                            assert forall|r: int, c: int| grid.has(r, c) implies #[trigger] grid.at(
                                r,
                                c,
                            ) == Cell::Clean(0) by {
                                lemma_offset_in_bounds(
                                    grid.height(),
                                    grid.width(),
                                    r,
                                    c,
                                );
                            }
                        }
                        Some(grid)
                    },
                    Err(_) => None,
                }
            },
        }
    }

    /// Buries distinct bombs in a blank grid and counts them.
    fn lay(field_grid: Grid<Cell>, bomb_locations: &[(usize, usize)]) -> (field: Minefield)
        requires
            field_grid.wf(),
            field_grid.height() > 0,
            field_grid.width() > 0,
            forall|r: int, c: int|
                field_grid.has(r, c) ==> #[trigger] field_grid.at(r, c) == Cell::Clean(0),
            all_inside(
                field_grid.height() as usize,
                field_grid.width() as usize,
                bomb_locations@,
            ),
            bomb_locations@.no_duplicates(),
        ensures
            field.wf(),
            field.cells().height() == field_grid.height(),
            field.cells().width() == field_grid.width(),
            bomb_positions(field.cells()) == bomb_locations@.to_set(),
            field.bomb_total() == bomb_locations@.len(),
    {
        let ghost bombs = bomb_locations@;
        let ghost start = field_grid;
        let mut field_grid = field_grid;
        proof {
            assert forall|r: int, c: int| start.has(r, c) implies (#[trigger] start.at(r, c)
                matches Cell::Clean(n) ==> n + hits(bombs, r, c) <= u8::MAX) by {
                lemma_hits_of_distinct(bombs, r, c);
            }
        }
        let done = Self::bury_bombs(&mut field_grid, bomb_locations);
        let field = Minefield { field: field_grid, num_bombs: bomb_locations.len() };
        proof {
            assert(done is Ok);
            assert forall|r: int, c: int| #[trigger]
                bomb_at(field_grid, r, c) == listed(bombs, r, c) by {
                if field_grid.has(r, c) {
                    assert(field_grid.at(r, c) == buried_cell(start.at(r, c), bombs, r, c));
                } else if 0 <= r <= usize::MAX && 0 <= c <= usize::MAX && bombs.contains(
                    (r as usize, c as usize),
                ) {
                    let k = choose|k: int|
                        0 <= k < bombs.len() && bombs[k] == (r as usize, c as usize);
                    assert(bombs[k].0 < start.height());
                }
            }
            assert forall|r: int, c: int| field_grid.has(r, c) implies (#[trigger] field_grid.at(
                r,
                c,
            ) matches Cell::Clean(n) ==> n == bombs_around(field_grid, r, c)) by {
                lemma_hits_of_distinct(bombs, r, c);
                assert(field_grid.at(r, c) == buried_cell(start.at(r, c), bombs, r, c));
            }
            assert forall|p: (usize, usize)|
                bomb_positions(field_grid).contains(p) <==> bombs.to_set().contains(p) by {
                assert(bomb_at(field_grid, p.0 as int, p.1 as int) == listed(
                    bombs,
                    p.0 as int,
                    p.1 as int,
                ));
            }
            assert(bomb_positions(field_grid) =~= bombs.to_set());
            vstd::seq_lib::seq_to_set_is_finite(bombs);
            bombs.unique_seq_to_set();
        }
        field
    }

    /// Lays out a `height` by `width` field with a bomb on each of
    /// `bomb_locations`.
    ///
    /// Refused are a field with a side of zero or with more cells than the
    /// machine can count, a bomb outside the field, and two bombs on one
    /// cell.
    pub fn with_bombs(height: usize, width: usize, bomb_locations: &[(usize, usize)]) -> (made:
        Result<Minefield, FieldError>)
        ensures
            match made {
                Ok(field) => {
                    &&& placement_fault(height, width, bomb_locations@) is None
                    &&& field.wf()
                    &&& field.cells().height() == height
                    &&& field.cells().width() == width
                    &&& bomb_positions(field.cells()) == bomb_locations@.to_set()
                    &&& field.bomb_total() == bomb_locations@.len()
                },
                Err(e) => placement_fault(height, width, bomb_locations@) == Some(e),
            },
    {
        let ghost bombs = bomb_locations@;
        let field_grid = match Self::blank(height, width) {
            Some(grid) => grid,
            None => {
                return Err(FieldError::InvalidDimensions);
            },
        };
        let mut k: usize = 0;
        while k < bomb_locations.len()
            invariant
                k <= bombs.len(),
                bombs == bomb_locations@,
                field_grid.wf(),
                valid_dimensions(height, width),
                field_grid.height() == height,
                field_grid.width() == width,
                forall|j: int| 0 <= j < k ==> (#[trigger] bombs[j]).0 < height && bombs[j].1 < width,
            decreases bombs.len() - k,
        {
            let (row, col) = bomb_locations[k];
            if field_grid.index(row, col).is_none() {
                assert(!((#[trigger] bombs[k as int]).0 < height && bombs[k as int].1 < width));
                return Err(FieldError::BombOutOfRange);
            }
            k += 1;
        }
        let mut seen: Vec<bool> = vec![false; field_grid.len()];
        proof {
            assert(bombs.take(0) =~= Seq::<(usize, usize)>::empty());
            assert forall|r: int, c: int| field_grid.has(r, c) implies !seen@[#[trigger] offset_of(
                field_grid.width(),
                r,
                c,
            )] by {
                lemma_offset_in_bounds(field_grid.height(), field_grid.width(), r, c);
            }
        }
        let mut k: usize = 0;
        while k < bomb_locations.len()
            invariant
                k <= bombs.len(),
                bombs == bomb_locations@,
                field_grid.wf(),
                valid_dimensions(height, width),
                field_grid.height() == height,
                field_grid.width() == width,
                all_inside(height, width, bombs),
                seen@.len() == field_grid@.len(),
                bombs.take(k as int).no_duplicates(),
                forall|r: int, c: int|
                    field_grid.has(r, c) ==> (seen@[#[trigger] offset_of(
                        field_grid.width(),
                        r,
                        c,
                    )] <==> bombs.take(k as int).contains((r as usize, c as usize))),
            decreases bombs.len() - k,
        {
            let (row, col) = bomb_locations[k];
            let ghost before = bombs.take(k as int);
            proof {
                assert(bombs[k as int].0 < height && bombs[k as int].1 < width);
                assert(bombs.take(k + 1) =~= before.push((row, col)));
            }
            match field_grid.index(row, col) {
                None => {
                    return Err(FieldError::BombOutOfRange);
                },
                Some(place) => {
                    assert(place == offset_of(field_grid.width(), row as int, col as int));
                    if seen[place] {
                        proof {
                            let j = choose|j: int|
                                0 <= j < before.len() && before[j] == (row, col);
                            assert(bombs[j] == bombs[k as int]);
                        }
                        return Err(FieldError::DuplicateBomb);
                    }
                    seen[place] = true;
                    proof {
                        assert forall|r: int, c: int| field_grid.has(r, c) implies (seen@[#[trigger] offset_of(
                            field_grid.width(),
                            r,
                            c,
                        )] <==> bombs.take(k + 1).contains((r as usize, c as usize))) by {
                            lemma_seq_contains_after_push(
                                before,
                                (row, col),
                                (r as usize, c as usize),
                            );
                            lemma_offset_in_bounds(
                                field_grid.height(),
                                field_grid.width(),
                                r,
                                c,
                            );
                            lemma_coords_of_offset(
                                field_grid.height(),
                                field_grid.width(),
                                r,
                                c,
                            );
                            lemma_coords_of_offset(
                                field_grid.height(),
                                field_grid.width(),
                                row as int,
                                col as int,
                            );
                        }
                        assert forall|a: int, b: int|
                            0 <= a < before.len() + 1 && 0 <= b < before.len() + 1 && a
                                != b implies before.push((row, col))[a] != before.push(
                            (row, col),
                        )[b] by {
                            if a == before.len() {
                                assert(before.contains(before[b]));
                            } else if b == before.len() {
                                assert(before.contains(before[a]));
                            }
                        }
                    }
                },
            }
            k += 1;
        }
        proof {
            assert(bombs.take(k as int) =~= bombs);
        }
        Ok(Self::lay(field_grid, bomb_locations))
    }

    /// Lays out a `height` by `width` field with `num_bombs` bombs on cells
    /// drawn at random, no two on the same cell.
    ///
    /// Refused are a field with a side of zero or with more cells than the
    /// machine can count, and more bombs than the field has cells.
    pub fn new(height: usize, width: usize, num_bombs: usize) -> (made: Result<
        Minefield,
        FieldError,
    >)
        ensures
            match made {
                Ok(field) => {
                    &&& valid_dimensions(height, width)
                    &&& num_bombs <= height * width
                    &&& field.wf()
                    &&& field.cells().height() == height
                    &&& field.cells().width() == width
                    &&& field.bomb_total() == num_bombs
                },
                Err(e) => if valid_dimensions(height, width) {
                    num_bombs > height * width && e == FieldError::TooManyBombs
                } else {
                    e == FieldError::InvalidDimensions
                },
            },
    {
        let field_grid = match Self::blank(height, width) {
            Some(grid) => grid,
            None => {
                return Err(FieldError::InvalidDimensions);
            },
        };
        if num_bombs > field_grid.len() {
            return Err(FieldError::TooManyBombs);
        }
        let size = field_grid.len();
        let bomb_indices_1d = if num_bombs < size || size <= 0xffff_ffff {
            let mut rng = rand::thread_rng();
            sample_indices(&mut rng, size, num_bombs)
        } else {
            Self::every_offset(size)
        };
        let bomb_indices_2d = Self::cells_of(&field_grid, &bomb_indices_1d);
        Ok(Self::lay(field_grid, bomb_indices_2d.as_slice()))
    }

    /// The offsets of a field of `size` cells, each of them once. This is
    /// what is left to draw when every cell is to hold a bomb.
    fn every_offset(size: usize) -> (offsets: Vec<usize>)
        ensures
            offsets@.len() == size,
            offsets@.no_duplicates(),
            forall|k: int| 0 <= k < offsets@.len() ==> #[trigger] offsets@[k] < size,
    {
        let mut offsets: Vec<usize> = Vec::new();
        let mut k: usize = 0;
        while k < size
            invariant
                k <= size,
                offsets@.len() == k,
                forall|j: int| 0 <= j < k ==> #[trigger] offsets@[j] == j,
            decreases size - k,
        {
            offsets.push(k);
            k += 1;
        }
        offsets
    }

    /// The cells that sit at the given offsets of `field_grid`, in the order
    /// of the offsets.
    fn cells_of(field_grid: &Grid<Cell>, offsets: &Vec<usize>) -> (cells: Vec<(usize, usize)>)
        requires
            field_grid.wf(),
            forall|k: int| 0 <= k < offsets@.len() ==> #[trigger] offsets@[k] < field_grid@.len(),
            offsets@.no_duplicates(),
        ensures
            cells@.len() == offsets@.len(),
            forall|k: int|
                0 <= k < offsets@.len() ==> field_grid.index_rev(offsets@[k]) == Some(
                    #[trigger] cells@[k],
                ),
            all_inside(field_grid.height() as usize, field_grid.width() as usize, cells@),
            cells@.no_duplicates(),
    {
        let mut cells: Vec<(usize, usize)> = Vec::new();
        let mut k: usize = 0;
        while k < offsets.len()
            invariant
                k <= offsets@.len(),
                field_grid.wf(),
                forall|j: int|
                    0 <= j < offsets@.len() ==> #[trigger] offsets@[j] < field_grid@.len(),
                cells@.len() == k,
                forall|j: int|
                    0 <= j < k ==> field_grid.index_rev(offsets@[j]) == Some(#[trigger] cells@[j]),
            decreases offsets@.len() - k,
        {
            match field_grid.index_rev(offsets[k]) {
                Some(cell) => {
                    cells.push(cell);
                },
                None => {},
            }
            k += 1;
        }
        proof {
            assert forall|j: int| 0 <= j < cells@.len() implies (#[trigger] cells@[j]).0
                < field_grid.height() && cells@[j].1 < field_grid.width() by {
                lemma_coords_in_range(field_grid.height(), field_grid.width(), offsets@[j] as int);
            }
            assert forall|a: int, b: int|
                0 <= a < cells@.len() && 0 <= b < cells@.len() && a != b implies cells@[a]
                != cells@[b] by {
                lemma_coords_in_range(field_grid.height(), field_grid.width(), offsets@[a] as int);
                lemma_coords_in_range(field_grid.height(), field_grid.width(), offsets@[b] as int);
            }
        }
        cells
    }

    /// The number of rows and the number of columns.
    pub fn shape(&self) -> (dims: (usize, usize))
        ensures
            dims.0 == self.cells().height(),
            dims.1 == self.cells().width(),
    {
        self.field.shape()
    }

    /// The number of bombs in the field.
    pub fn num_bombs(&self) -> (count: usize)
        ensures
            count == self.bomb_total(),
    {
        self.num_bombs
    }

    /// What lies under cell `(row, col)`, if the field has that cell. Looking
    /// does not change anything.
    pub fn dig(&self, row: usize, col: usize) -> (found: Option<Cell>)
        requires
            self.wf(),
        ensures
            found == self.cells().get(row, col),
    {
        self.field.get(row, col)
    }

    /// Whether `guess` names the bombs of this field: it lists as many
    /// different positions as the field has bombs, and a bomb lies under
    /// every one of them.
    pub open spec fn accepts(&self, guess: Seq<(usize, usize)>) -> bool {
        &&& guess.to_set().len() == self.bomb_total()
        &&& forall|k: int|
            0 <= k < guess.len() ==> self.cells().get((#[trigger] guess[k]).0, guess[k].1) == Some(
                Cell::Bomb,
            )
    }

    /// Checks a guess at where the bombs are. A position that is listed
    /// twice counts once.
    pub fn submit(&self, bomb_locations: &[(usize, usize)]) -> (won: bool)
        requires
            self.wf(),
        ensures
            won == self.accepts(bomb_locations@),
    {
        let ghost guess = bomb_locations@;
        let ghost field_grid = self.field;
        let mut seen: Vec<bool> = vec![false; self.field.len()];
        let mut distinct: usize = 0;
        proof {
            assert(guess.take(0) =~= Seq::<(usize, usize)>::empty());
            assert(guess.take(0).to_set() =~= Set::<(usize, usize)>::empty());
            assert forall|r: int, c: int| field_grid.has(r, c) implies !seen@[#[trigger] offset_of(
                field_grid.width(),
                r,
                c,
            )] by {
                lemma_offset_in_bounds(field_grid.height(), field_grid.width(), r, c);
            }
        }
        let mut k: usize = 0;
        while k < bomb_locations.len()
            invariant
                k <= guess.len(),
                guess == bomb_locations@,
                field_grid == self.cells(),
                self.wf(),
                seen@.len() == field_grid@.len(),
                forall|j: int|
                    0 <= j < k ==> field_grid.get((#[trigger] guess[j]).0, guess[j].1) == Some(
                        Cell::Bomb,
                    ),
                forall|r: int, c: int|
                    field_grid.has(r, c) ==> (seen@[#[trigger] offset_of(
                        field_grid.width(),
                        r,
                        c,
                    )] <==> guess.take(k as int).contains((r as usize, c as usize))),
                distinct == guess.take(k as int).to_set().len(),
                distinct <= k,
            decreases guess.len() - k,
        {
            let (row, col) = bomb_locations[k];
            let ghost before = guess.take(k as int);
            proof {
                assert(guess.take(k + 1) =~= before.push((row, col)));
                before.lemma_push_to_set_commute((row, col));
                vstd::seq_lib::seq_to_set_is_finite(before);
            }
            match self.dig(row, col) {
                Some(Cell::Bomb) => {},
                _ => {
                    assert(field_grid.get(guess[k as int].0, guess[k as int].1) != Some(
                        Cell::Bomb,
                    ));
                    return false;
                },
            }
            match self.field.index(row, col) {
                None => {
                    return false;
                },
                Some(place) => {
                    if !seen[place] {
                        seen[place] = true;
                        distinct += 1;
                    }
                    proof {
                        assert forall|r: int, c: int| field_grid.has(r, c) implies (seen@[#[trigger] offset_of(
                            field_grid.width(),
                            r,
                            c,
                        )] <==> guess.take(k + 1).contains((r as usize, c as usize))) by {
                            lemma_seq_contains_after_push(
                                before,
                                (row, col),
                                (r as usize, c as usize),
                            );
                            lemma_offset_in_bounds(
                                field_grid.height(),
                                field_grid.width(),
                                r,
                                c,
                            );
                            lemma_coords_of_offset(
                                field_grid.height(),
                                field_grid.width(),
                                r,
                                c,
                            );
                            lemma_coords_of_offset(
                                field_grid.height(),
                                field_grid.width(),
                                row as int,
                                col as int,
                            );
                        }
                    }
                },
            }
            k += 1;
        }
        proof {
            assert(guess.take(k as int) =~= guess);
        }
        distinct == self.num_bombs
    }

    /// A guess is accepted exactly when its positions, taken as a set, are
    /// the cells that hold a bomb.
    pub proof fn lemma_accepts_exact_match(&self, guess: Seq<(usize, usize)>)
        requires
            self.wf(),
        ensures
            self.accepts(guess) <==> guess.to_set() == bomb_positions(self.cells()),
    {
        let named = guess.to_set();
        let bombs = bomb_positions(self.cells());
        vstd::seq_lib::seq_to_set_is_finite(guess);
        if self.accepts(guess) {
            assert forall|p: (usize, usize)| named.contains(p) implies bombs.contains(p) by {
                let k = choose|k: int| 0 <= k < guess.len() && guess[k] == p;
                assert(self.cells().get(guess[k].0, guess[k].1) == Some(Cell::Bomb));
            }
            vstd::set_lib::lemma_subset_equality(named, bombs);
        }
        if named == bombs {
            assert forall|k: int| 0 <= k < guess.len() implies self.cells().get(
                (#[trigger] guess[k]).0,
                guess[k].1,
            ) == Some(Cell::Bomb) by {
                assert(named.contains(guess[k]));
            }
        }
    }
}

impl Render for Cell {
    /// `X` for a bomb, and for a clean cell the number of bombs around it.
    open spec fn text(&self) -> Seq<char> {
        match *self {
            Cell::Bomb => seq!['X'],
            Cell::Clean(n) => decimal(n as nat),
        }
    }

    fn render(&self, out: &mut String) {
        match *self {
            Cell::Bomb => {
                proof {
                    reveal_strlit("X");
                }
                out.append("X");
                assert(out@ =~= old(out)@ + seq!['X']);
            },
            Cell::Clean(n) => {
                n.render(out);
            },
        }
    }
}

impl Minefield {
    /// The field as text, one line for each row: `X` for a bomb and the count
    /// for a clean cell, with a space between the cells of a row.
    pub fn to_string(&self) -> (out: String)
        requires
            self.wf(),
        ensures
            out@ == self.cells().text(),
    {
        self.field.to_string()
    }
}

} // verus!
