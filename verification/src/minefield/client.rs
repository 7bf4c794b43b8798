//! The player's session: what has been uncovered so far, and whether the game
//! is still running.

use super::field::{bomb_positions, bombs_around, valid_dimensions, Cell, Minefield};
use super::grid::{
    adjacent, in_range, lemma_coords_of_offset, lemma_offset_in_bounds, offset_of,
    row_major_before, Grid,
};
use vstd::prelude::*;
use vstd::seq_lib::lemma_seq_contains_after_push;

verus! {

/// What the player sees of a cell.
#[derive(Debug, Clone, Copy, PartialEq, Eq, Structural)]
pub enum CellState {
    /// Uncovered; the value is what lies under the cell.
    Revealed(Cell),
    /// Still covered.
    Hidden,
    /// Covered, and flagged by the player as a bomb.
    Flagged,
    /// Covered, and marked as doubtful. No operation puts a cell into this
    /// state; it is handled wherever it is met.
    Marked,
}

/// How the game stands.
#[derive(Debug, Clone, Copy, PartialEq, Eq, Structural)]
pub enum GameState {
    Running,
    Lost,
    Won,
}

/// A guess was submitted although the game was over. `state` is how the game
/// stood at that moment.
#[derive(Debug, Clone, Copy, PartialEq, Eq, Structural)]
pub struct InvalidState {
    pub state: GameState,
}

/// What `flag` makes of a cell: a hidden cell is flagged, a flagged cell is
/// hidden again, and any other cell stays as it is.
pub open spec fn toggled(state: CellState) -> CellState {
    match state {
        CellState::Hidden => CellState::Flagged,
        CellState::Flagged => CellState::Hidden,
        other => other,
    }
}

/// Whether `reveal_board` uncovers a cell in this state: a hidden cell always, a
/// flagged or marked one only when `all` is set.
pub open spec fn swept(state: CellState, all: bool) -> bool {
    state == CellState::Hidden || (all && (state == CellState::Flagged || state
        == CellState::Marked))
}

/// How far `to` is from `from` along one axis.
pub open spec fn steps_between(from: int, to: int) -> int {
    if from <= to {
        to - from
    } else {
        from - to
    }
}

/// The coordinate one step from `from` towards `to`, or `from` where the two
/// are the same.
pub open spec fn step_towards(from: int, to: int) -> int {
    if from < to {
        from + 1
    } else if from > to {
        from - 1
    } else {
        from
    }
}

/// One game: the bomb layout, what the player sees of each cell, and how the
/// game stands.
pub struct Client {
    minefield: Minefield,
    state: Grid<CellState>,
    game_state: GameState,
}

impl Client {
    /// The bomb layout that is played on.
    pub closed spec fn layout(&self) -> Minefield {
        self.minefield
    }

    /// What the player sees, cell by cell.
    pub closed spec fn board(&self) -> Grid<CellState> {
        self.state
    }

    /// How the game stands.
    pub closed spec fn status(&self) -> GameState {
        self.game_state
    }

    /// Whether `(row, col)` is a cell of the game.
    #[verifier::inline]
    pub open spec fn has(&self, row: int, col: int) -> bool {
        self.board().has(row, col)
    }

    /// What the player sees of cell `(row, col)`.
    #[verifier::inline]
    pub open spec fn shown(&self, row: int, col: int) -> CellState {
        self.board().at(row, col)
    }

    /// What lies under cell `(row, col)`.
    #[verifier::inline]
    pub open spec fn truth(&self, row: int, col: int) -> Cell {
        self.layout().cells().at(row, col)
    }

    /// The cells that carry a flag.
    pub open spec fn flagged(&self) -> Set<(usize, usize)> {
        Set::new(
            |p: (usize, usize)|
                self.has(p.0 as int, p.1 as int) && self.shown(p.0 as int, p.1 as int)
                    == CellState::Flagged,
        )
    }

    /// The layout and the board are well formed and of one size, and every
    /// uncovered cell shows what lies under it.
    pub open spec fn wf(&self) -> bool {
        &&& self.layout().wf()
        &&& self.board().wf()
        &&& self.board().height() == self.layout().cells().height()
        &&& self.board().width() == self.layout().cells().width()
        &&& forall|r: int, c: int|
            self.has(r, c) ==> (#[trigger] self.shown(r, c) matches CellState::Revealed(cell)
                ==> cell == self.truth(r, c))
    }

    /// Starts a game on `field`: every cell is hidden and the game is
    /// running.
    pub fn from_minefield(field: Minefield) -> (client: Client)
        requires
            field.wf(),
        ensures
            client.wf(),
            client.layout() == field,
            client.status() == GameState::Running,
            forall|r: int, c: int|
                client.has(r, c) ==> #[trigger] client.shown(r, c) == CellState::Hidden,
    {
        let (height, width) = field.shape();
        assert(height * width <= usize::MAX);
        let state_init_data: Vec<CellState> = vec![CellState::Hidden; height * width];
        match Grid::new(height, width, state_init_data) {
            Ok(state) => {
                proof {
                    assert forall|r: int, c: int| state.has(r, c) implies #[trigger] state.at(r, c)
                        == CellState::Hidden by {
                        lemma_offset_in_bounds(state.height(), state.width(), r, c);
                    }
                }
                Client { minefield: field, state, game_state: GameState::Running }
            },
            Err(_) => vstd::pervasive::unreached(),
        }
    }

    /// Starts a game on a fresh `height` by `width` field with `num_bombs`
    /// bombs on cells drawn at random.
    pub fn new_random(height: usize, width: usize, num_bombs: usize) -> (client: Client)
        requires
            valid_dimensions(height, width),
            num_bombs <= height * width,
        ensures
            client.wf(),
            client.board().height() == height,
            client.board().width() == width,
            client.layout().bomb_total() == num_bombs,
            client.status() == GameState::Running,
            forall|r: int, c: int|
                client.has(r, c) ==> #[trigger] client.shown(r, c) == CellState::Hidden,
    {
        match Minefield::new(height, width, num_bombs) {
            Ok(field) => Self::from_minefield(field),
            Err(_) => vstd::pervasive::unreached(),
        }
    }

    /// Uncovers the one cell `(row, col)` and returns what lies under it. A
    /// bomb there loses the game.
    pub fn query_update(&mut self, row: usize, col: usize) -> (cell: Cell)
        requires
            old(self).wf(),
            old(self).has(row as int, col as int),
        ensures
            final(self).wf(),
            final(self).layout() == old(self).layout(),
            final(self).board().height() == old(self).board().height(),
            final(self).board().width() == old(self).board().width(),
            cell == old(self).truth(row as int, col as int),
            forall|r: int, c: int|
                old(self).has(r, c) ==> #[trigger] final(self).shown(r, c) == if r == row && c
                    == col {
                    CellState::Revealed(cell)
                } else {
                    old(self).shown(r, c)
                },
            final(self).status() == if cell == Cell::Bomb {
                GameState::Lost
            } else {
                old(self).status()
            },
    {
        let cell = match self.minefield.dig(row, col) {
            Some(cell) => cell,
            None => vstd::pervasive::unreached(),
        };
        let stored = self.state.set(row, col, CellState::Revealed(cell));
        match cell {
            Cell::Bomb => {
                self.game_state = GameState::Lost;
            },
            Cell::Clean(_) => {},
        }
        cell
    }

    /// The number of bombs in the field.
    pub fn num_bombs(&self) -> (count: usize)
        ensures
            count == self.layout().bomb_total(),
    {
        self.minefield.num_bombs()
    }

    /// Whether this game is the game `before` after `flag` on the cell
    /// `(row, col)`: that cell is toggled, and nothing else has changed.
    pub open spec fn is_flag_of(&self, before: Client, row: usize, col: usize) -> bool {
        &&& self.layout() == before.layout()
        &&& self.status() == before.status()
        &&& self.board().height() == before.board().height()
        &&& self.board().width() == before.board().width()
        &&& forall|r: int, c: int|
            before.has(r, c) ==> #[trigger] self.shown(r, c) == if r == row && c == col {
                toggled(before.shown(r, c))
            } else {
                before.shown(r, c)
            }
    }

    /// Flags a hidden cell, takes the flag off a flagged one, and leaves any
    /// other cell alone. Returns the state of the cell afterwards.
    pub fn flag(&mut self, row: usize, col: usize) -> (new_state: CellState)
        requires
            old(self).wf(),
            old(self).has(row as int, col as int),
        ensures
            final(self).wf(),
            final(self).is_flag_of(*old(self), row, col),
            new_state == toggled(old(self).shown(row as int, col as int)),
    {
        let new_state = match self.state.get(row, col) {
            Some(CellState::Hidden) => CellState::Flagged,
            Some(CellState::Flagged) => CellState::Hidden,
            Some(other) => other,
            None => vstd::pervasive::unreached(),
        };
        let stored = self.state.set(row, col, new_state);
        new_state
    }

    /// The flagged cells in row-major order, each of them once.
    pub fn get_flag_locations(&self) -> (flag_locations: Vec<(usize, usize)>)
        requires
            self.wf(),
        ensures
            flag_locations@.to_set() == self.flagged(),
            forall|a: int, b: int|
                0 <= a < b < flag_locations@.len() ==> row_major_before(
                    #[trigger] flag_locations@[a],
                    #[trigger] flag_locations@[b],
                ),
            flag_locations@.no_duplicates(),
    {
        let mut flag_locations: Vec<(usize, usize)> = Vec::new();
        let (h, w) = self.state.shape();
        let mut i: usize = 0;
        while i < h
            invariant
                self.wf(),
                h == self.board().height(),
                w == self.board().width(),
                i <= h,
                forall|p: (usize, usize)|
                    flag_locations@.contains(p) <==> (self.flagged().contains(p) && p.0 < i),
                forall|a: int, b: int|
                    0 <= a < b < flag_locations@.len() ==> row_major_before(
                        #[trigger] flag_locations@[a],
                        #[trigger] flag_locations@[b],
                    ),
            decreases h - i,
        {
            let mut j: usize = 0;
            while j < w
                invariant
                    self.wf(),
                    h == self.board().height(),
                    w == self.board().width(),
                    i < h,
                    j <= w,
                    forall|p: (usize, usize)|
                        flag_locations@.contains(p) <==> (self.flagged().contains(p) && (p.0 < i
                            || (p.0 == i && p.1 < j))),
                    forall|a: int, b: int|
                        0 <= a < b < flag_locations@.len() ==> row_major_before(
                            #[trigger] flag_locations@[a],
                            #[trigger] flag_locations@[b],
                        ),
                decreases w - j,
            {
                let flagged_here = match self.state.get(i, j) {
                    Some(CellState::Flagged) => true,
                    _ => false,
                };
                if flagged_here {
                    let ghost before = flag_locations@;
                    flag_locations.push((i, j));
                    proof {
                        assert forall|p: (usize, usize)|
                            flag_locations@.contains(p) <==> (self.flagged().contains(p) && (p.0
                                < i || (p.0 == i && p.1 < j + 1))) by {
                            lemma_seq_contains_after_push(before, (i, j), p);
                        }
                        assert forall|a: int, b: int|
                            0 <= a < b < flag_locations@.len() implies row_major_before(
                            #[trigger] flag_locations@[a],
                            #[trigger] flag_locations@[b],
                        ) by {
                            if b == before.len() {
                                assert(before.contains(before[a]));
                            }
                        }
                    }
                }
                j += 1;
            }
            i += 1;
        }
        proof {
            assert(flag_locations@.to_set() =~= self.flagged());
        }
        flag_locations
    }

    /// What the player sees, cell by cell.
    pub fn get_state(&self) -> (state: &Grid<CellState>)
        ensures
            *state == self.board(),
    {
        &self.state
    }

    /// How the game stands.
    pub fn get_game_state(&self) -> (game_state: GameState)
        ensures
            game_state == self.status(),
    {
        self.game_state
    }

    /// The bomb layout that is played on.
    pub fn minefield(&self) -> (field: &Minefield)
        ensures
            *field == self.layout(),
    {
        &self.minefield
    }

    /// Whether this game is the game `before` after `submit`: a running game
    /// is won if the flagged cells were exactly the cells that hold a bomb
    /// and lost if not, a game that was over stands as it stood, and the
    /// board has not changed.
    pub open spec fn is_submission_of(&self, before: Client) -> bool {
        &&& self.layout() == before.layout()
        &&& self.board() == before.board()
        &&& self.status() == if before.status() != GameState::Running {
            before.status()
        } else if before.flagged() == bomb_positions(before.layout().cells()) {
            GameState::Won
        } else {
            GameState::Lost
        }
    }

    /// Ends a running game on the player's flags: won if the flagged cells
    /// are exactly the cells that hold a bomb, lost if not. Once the game is
    /// over a guess is refused and nothing changes.
    pub fn submit(&mut self) -> (verdict: Result<GameState, InvalidState>)
        requires
            old(self).wf(),
        ensures
            final(self).wf(),
            final(self).is_submission_of(*old(self)),
            verdict == if old(self).status() == GameState::Running {
                Ok::<GameState, InvalidState>(final(self).status())
            } else {
                Err::<GameState, InvalidState>(InvalidState { state: old(self).status() })
            },
    {
        match self.game_state {
            GameState::Running => {},
            other => {
                return Err(InvalidState { state: other });
            },
        }
        let flag_locations = self.get_flag_locations();
        proof {
            self.minefield.lemma_accepts_exact_match(flag_locations@);
        }
        if self.minefield.submit(flag_locations.as_slice()) {
            self.game_state = GameState::Won;
        } else {
            self.game_state = GameState::Lost;
        }
        Ok(self.game_state)
    }

    /// Whether `reveal_board` uncovers a bomb: some cell that it sweeps holds one.
    pub open spec fn sweeps_bomb(&self, all: bool) -> bool {
        self.sweeps_bomb_before(all, self.board().height() as int, 0)
    }

    /// Whether `reveal_board` uncovers a bomb in a row before `row`, or in `row`
    /// before the column `col`.
    pub open spec fn sweeps_bomb_before(&self, all: bool, row: int, col: int) -> bool {
        exists|r: int, c: int|
            self.has(r, c) && (r < row || (r == row && c < col)) && swept(
                #[trigger] self.shown(r, c),
                all,
            ) && self.truth(r, c) == Cell::Bomb
    }

    /// Whether this game is the game `before` after `reveal_board`: every
    /// cell that is swept shows what lies under it, every other cell is as
    /// it was, and the game is lost if a bomb came to light, unless it was
    /// won before.
    pub open spec fn is_sweep_of(&self, before: Client, all: bool) -> bool {
        &&& self.layout() == before.layout()
        &&& self.board().height() == before.board().height()
        &&& self.board().width() == before.board().width()
        &&& forall|r: int, c: int|
            before.has(r, c) ==> #[trigger] self.shown(r, c) == if swept(
                before.shown(r, c),
                all,
            ) {
                CellState::Revealed(before.truth(r, c))
            } else {
                before.shown(r, c)
            }
        &&& self.status() == if before.status() == GameState::Won {
            GameState::Won
        } else if before.sweeps_bomb(all) {
            GameState::Lost
        } else {
            before.status()
        }
    }

    /// Uncovers every hidden cell, and with `all` every flagged or marked
    /// cell too. Cells that are uncovered already stay as they are. A bomb
    /// that comes to light loses the game, except that a game that was won
    /// stays won.
    pub fn reveal_board(&mut self, all: bool)
        requires
            old(self).wf(),
        ensures
            final(self).wf(),
            final(self).is_sweep_of(*old(self), all),
    {
        let ghost start = *self;
        let state_before = self.game_state;
        let (h, w) = self.state.shape();
        let mut i: usize = 0;
        while i < h
            invariant
                start == *old(self),
                start.wf(),
                self.wf(),
                self.layout() == start.layout(),
                h == start.board().height(),
                w == start.board().width(),
                self.board().height() == h,
                self.board().width() == w,
                i <= h,
                forall|r: int, c: int|
                    start.has(r, c) ==> #[trigger] self.shown(r, c) == if r < i && swept(
                        start.shown(r, c),
                        all,
                    ) {
                        CellState::Revealed(start.truth(r, c))
                    } else {
                        start.shown(r, c)
                    },
                self.status() == if start.sweeps_bomb_before(all, i as int, 0) {
                    GameState::Lost
                } else {
                    start.status()
                },
            decreases h - i,
        {
            let mut j: usize = 0;
            while j < w
                invariant
                    start.wf(),
                    self.wf(),
                    self.layout() == start.layout(),
                    h == start.board().height(),
                    w == start.board().width(),
                    self.board().height() == h,
                    self.board().width() == w,
                    i < h,
                    j <= w,
                    forall|r: int, c: int|
                        start.has(r, c) ==> #[trigger] self.shown(r, c) == if (r < i || (r == i
                            && c < j)) && swept(start.shown(r, c), all) {
                            CellState::Revealed(start.truth(r, c))
                        } else {
                            start.shown(r, c)
                        },
                    self.status() == if start.sweeps_bomb_before(all, i as int, j as int) {
                        GameState::Lost
                    } else {
                        start.status()
                    },
                decreases w - j,
            {
                let sweep = match self.state.get(i, j) {
                    Some(CellState::Hidden) => true,
                    Some(CellState::Flagged) => all,
                    Some(CellState::Marked) => all,
                    _ => false,
                };
                assert(sweep == swept(start.shown(i as int, j as int), all));
                if sweep {
                    let cell = self.query_update(i, j);
                }
                proof {
                    let here = swept(start.shown(i as int, j as int), all) && start.truth(
                        i as int,
                        j as int,
                    ) == Cell::Bomb;
                    assert(start.sweeps_bomb_before(all, i as int, j + 1)
                        <==> start.sweeps_bomb_before(all, i as int, j as int) || here) by {
                        if start.sweeps_bomb_before(all, i as int, j + 1) {
                            let (r, c) = choose|r: int, c: int|
                                start.has(r, c) && (r < i || (r == i && c < j + 1)) && swept(
                                    #[trigger] start.shown(r, c),
                                    all,
                                ) && start.truth(r, c) == Cell::Bomb;
                            if r == i && c == j {
                            } else {
                                assert(start.has(r, c) && (r < i || (r == i && c < j)) && swept(
                                    start.shown(r, c),
                                    all,
                                ) && start.truth(r, c) == Cell::Bomb);
                            }
                        }
                        if start.sweeps_bomb_before(all, i as int, j as int) {
                            let (r, c) = choose|r: int, c: int|
                                start.has(r, c) && (r < i || (r == i && c < j)) && swept(
                                    #[trigger] start.shown(r, c),
                                    all,
                                ) && start.truth(r, c) == Cell::Bomb;
                            assert(start.has(r, c) && (r < i || (r == i && c < j + 1)) && swept(
                                start.shown(r, c),
                                all,
                            ) && start.truth(r, c) == Cell::Bomb);
                        }
                        if here {
                            assert(start.has(i as int, j as int) && swept(
                                start.shown(i as int, j as int),
                                all,
                            ) && start.truth(i as int, j as int) == Cell::Bomb);
                        }
                    }
                }
                j += 1;
            }
            proof {
                assert(start.sweeps_bomb_before(all, i + 1, 0) <==> start.sweeps_bomb_before(
                    all,
                    i as int,
                    w as int,
                )) by {
                    if start.sweeps_bomb_before(all, i + 1, 0) {
                        let (r, c) = choose|r: int, c: int|
                            start.has(r, c) && (r < i + 1 || (r == i + 1 && c < 0)) && swept(
                                #[trigger] start.shown(r, c),
                                all,
                            ) && start.truth(r, c) == Cell::Bomb;
                        assert(start.has(r, c) && (r < i || (r == i && c < w)) && swept(
                            start.shown(r, c),
                            all,
                        ) && start.truth(r, c) == Cell::Bomb);
                    }
                    if start.sweeps_bomb_before(all, i as int, w as int) {
                        let (r, c) = choose|r: int, c: int|
                            start.has(r, c) && (r < i || (r == i && c < w)) && swept(
                                #[trigger] start.shown(r, c),
                                all,
                            ) && start.truth(r, c) == Cell::Bomb;
                        assert(start.has(r, c) && (r < i + 1 || (r == i + 1 && c < 0)) && swept(
                            start.shown(r, c),
                            all,
                        ) && start.truth(r, c) == Cell::Bomb);
                    }
                }
            }
            i += 1;
        }
        match state_before {
            GameState::Won => {
                self.game_state = GameState::Won;
            },
            _ => {},
        }
    }

    /// Whether the flood goes on from the cell `from` to the cell `to`:
    /// `from` has no bomb around it, and `to` lies beside it and is hidden.
    pub open spec fn flood_step(&self, from: (usize, usize), to: (usize, usize)) -> bool {
        &&& self.has(from.0 as int, from.1 as int)
        &&& self.truth(from.0 as int, from.1 as int) == Cell::Clean(0)
        &&& self.board().is_neighbour(from.0, from.1, to)
        &&& self.shown(to.0 as int, to.1 as int) == CellState::Hidden
    }

    /// Whether `path` is a way that a flood from `(row, col)` takes: it
    /// starts there, and each of its steps is a step of the flood.
    pub open spec fn is_flood_path(&self, row: usize, col: usize, path: Seq<(usize, usize)>) -> bool {
        &&& path.len() > 0
        &&& path[0] == (row, col)
        &&& forall|k: int| 0 < k < path.len() ==> self.flood_step(path[k - 1], #[trigger] path[k])
    }

    /// Whether a flood from `(row, col)` uncovers the cell `target`: the
    /// start itself, and every cell that a way of the flood leads to.
    pub open spec fn floods(&self, row: usize, col: usize, target: (usize, usize)) -> bool {
        exists|path: Seq<(usize, usize)>| #[trigger]
            self.is_flood_path(row, col, path) && path.last() == target
    }

    /// A flood uncovers the cell it starts from.
    pub proof fn lemma_floods_start(&self, row: usize, col: usize)
        ensures
            self.floods(row, col, (row, col)),
    {
        let path = seq![(row, col)];
        assert(self.is_flood_path(row, col, path) && path.last() == (row, col));
    }

    /// A flood that uncovers `from` uncovers every cell that it steps to from
    /// there.
    pub proof fn lemma_floods_step(
        &self,
        row: usize,
        col: usize,
        from: (usize, usize),
        to: (usize, usize),
    )
        requires
            self.floods(row, col, from),
            self.flood_step(from, to),
        ensures
            self.floods(row, col, to),
    {
        let path = choose|path: Seq<(usize, usize)>| #[trigger]
            self.is_flood_path(row, col, path) && path.last() == from;
        let longer = path.push(to);
        assert forall|k: int| 0 < k < longer.len() implies self.flood_step(
            longer[k - 1],
            #[trigger] longer[k],
        ) by {
            if k < path.len() {
                assert(self.flood_step(path[k - 1], path[k]));
            }
        }
        assert(self.is_flood_path(row, col, longer) && longer.last() == to);
    }

    /// Whether every cell but `(row, col)` is hidden.
    pub open spec fn hidden_except(&self, row: usize, col: usize) -> bool {
        forall|r: int, c: int|
            self.has(r, c) && !(r == row && c == col) ==> #[trigger] self.shown(r, c)
                == CellState::Hidden
    }

    /// In a field without bombs every cell is clean and counts none.
    pub proof fn lemma_no_bombs_all_zero(&self, r: int, c: int)
        requires
            self.wf(),
            self.layout().bomb_total() == 0,
            self.has(r, c),
        ensures
            self.truth(r, c) == Cell::Clean(0),
    {
        let cells = self.layout().cells();
        let bombs = bomb_positions(cells);
        assert(bombs =~= Set::<(usize, usize)>::empty()) by {
            bombs.lemma_len0_is_empty();
        }
        assert forall|a: int, b: int| cells.has(a, b) implies cells.at(a, b) != Cell::Bomb by {
            if cells.at(a, b) == Cell::Bomb {
                assert(bombs.contains((a as usize, b as usize)));
            }
        }
        assert(bombs_around(cells, r, c) == 0);
    }

    /// On a field without bombs, a flood from `(row, col)` uncovers every
    /// cell, if every cell but `(row, col)` is hidden when it starts.
    pub proof fn lemma_flood_covers_empty_field(&self, row: usize, col: usize, r: usize, c: usize)
        requires
            self.wf(),
            self.layout().bomb_total() == 0,
            self.has(row as int, col as int),
            self.has(r as int, c as int),
            self.hidden_except(row, col),
        ensures
            self.floods(row, col, (r, c)),
        decreases steps_between(row as int, r as int) + steps_between(col as int, c as int),
    {
        if r == row && c == col {
            self.lemma_floods_start(row, col);
        } else {
            let nearer = (step_towards(r as int, row as int), step_towards(c as int, col as int));
            let from = (nearer.0 as usize, nearer.1 as usize);
            self.lemma_flood_covers_empty_field(row, col, from.0, from.1);
            self.lemma_no_bombs_all_zero(nearer.0, nearer.1);
            assert(self.shown(r as int, c as int) == CellState::Hidden);
            assert(self.flood_step(from, (r, c)));
            self.lemma_floods_step(row, col, from, (r, c));
        }
    }

    /// Whether every hidden cell beside each bomb-free cell of `done` is in
    /// `done` or in `pending`.
    #[verifier::opaque]
    spec fn flood_closed(
        &self,
        done: Seq<(usize, usize)>,
        pending: Seq<(usize, usize)>,
    ) -> bool {
        forall|from: (usize, usize), to: (usize, usize)|
            #![trigger done.contains(from), self.flood_step(from, to)]
            done.contains(from) && self.flood_step(from, to) ==> done.contains(to)
                || pending.contains(to)
    }

    /// A set of cells that holds the start of a flood and is closed under its
    /// steps holds every cell on every way of the flood.
    proof fn lemma_flood_within(
        &self,
        row: usize,
        col: usize,
        done: Seq<(usize, usize)>,
        path: Seq<(usize, usize)>,
        k: int,
    )
        requires
            done.contains((row, col)),
            self.flood_closed(done, Seq::empty()),
            self.is_flood_path(row, col, path),
            0 <= k < path.len(),
        ensures
            done.contains(path[k]),
        decreases k,
    {
        reveal(Client::flood_closed);
        if k > 0 {
            self.lemma_flood_within(row, col, done, path, k - 1);
            assert(self.flood_step(path[k - 1], path[k]));
        }
    }

    /// Whether this game is the game `before` after `query_smart` on the
    /// cell `(row, col)`: every cell that the flood uncovers shows what lies
    /// under it, every other cell is as it was, and the game is lost if a
    /// bomb lies under `(row, col)`.
    pub open spec fn is_flood_of(&self, before: Client, row: usize, col: usize) -> bool {
        &&& self.layout() == before.layout()
        &&& self.board().height() == before.board().height()
        &&& self.board().width() == before.board().width()
        &&& forall|r: int, c: int|
            before.has(r, c) ==> #[trigger] self.shown(r, c) == if before.floods(
                row,
                col,
                (r as usize, c as usize),
            ) {
                CellState::Revealed(before.truth(r, c))
            } else {
                before.shown(r, c)
            }
        &&& self.status() == if before.truth(row as int, col as int) == Cell::Bomb {
            GameState::Lost
        } else {
            before.status()
        }
    }

    /// Uncovers `(row, col)` and floods on from there: wherever an uncovered
    /// cell has no bomb around it, the hidden cells beside it are uncovered
    /// too. Flagged, marked and uncovered cells stop the flood. A bomb under
    /// `(row, col)` loses the game; the flood meets no other bomb.
    ///
    /// Always returns `Running`; how the game stands is read with
    /// `get_game_state`.
    pub fn query_smart(&mut self, row: usize, col: usize) -> (game_state: GameState)
        requires
            old(self).wf(),
            old(self).has(row as int, col as int),
        ensures
            game_state == GameState::Running,
            final(self).wf(),
            final(self).is_flood_of(*old(self), row, col),
            old(self).layout().bomb_total() == 0 && old(self).hidden_except(row, col)
                ==> forall|r: int, c: int|
                old(self).has(r, c) ==> #[trigger] final(self).shown(r, c) == CellState::Revealed(
                    Cell::Clean(0),
                ),
    {
        let ghost start = *self;
        let ghost origin = (row, col);
        let mut queued: Vec<bool> = vec![false; self.state.len()];
        let mut pending: Vec<(usize, usize)> = Vec::new();
        match self.state.index(row, col) {
            Some(place) => {
                queued[place] = true;
            },
            None => {},
        }
        pending.push((row, col));
        let ghost mut done: Seq<(usize, usize)> = Seq::empty();
        proof {
            assert(pending@ =~= seq![origin]);
            assert(queued@ =~= Seq::new(start.board()@.len(), |k: int| false).update(
                offset_of(start.board().width(), row as int, col as int),
                true,
            ));
            start.lemma_flood_begins(origin);
        }
        while pending.len() > 0
            invariant
                start == *old(self),
                origin == (row, col),
                start.wf(),
                start.has(row as int, col as int),
                self.flood_inv(start, origin, done, pending@, queued@),
                start.flood_closed(done, pending@),
            decreases start.board()@.len() - done.len(),
        {
            let ghost waiting = pending@;
            let (i, j) = match pending.pop() {
                Some(cell) => cell,
                None => vstd::pervasive::unreached(),
            };
            let ghost here = (i, j);
            proof {
                assert(waiting =~= pending@.push(here));
                self.lemma_flood_inv_facts(start, origin, done, waiting, queued@);
            }
            let ghost before = *self;
            let cell = self.query_update(i, j);
            proof {
                Self::lemma_flood_uncovers(
                    start,
                    before,
                    *self,
                    origin,
                    done,
                    pending@,
                    queued@,
                    here,
                    cell,
                );
                let ghost earlier = done;
                done = done.push(here);
                assert(done.drop_last() =~= earlier);
            }
            let spreads = match cell {
                Cell::Clean(count) => count == 0,
                Cell::Bomb => false,
            };
            if spreads {
                self.spread(
                    i,
                    j,
                    &mut pending,
                    &mut queued,
                    Ghost(start),
                    Ghost(origin),
                    Ghost(done),
                );
            } else {
                proof {
                    start.lemma_closed_without_spread(done.drop_last(), pending@, here);
                    assert(done =~= done.drop_last().push(here));
                }
            }
        }
        proof {
            assert(pending@ =~= Seq::<(usize, usize)>::empty());
            self.lemma_flood_finished(start, origin, done, queued@);
            if start.layout().bomb_total() == 0 && start.hidden_except(row, col) {
                assert forall|r: int, c: int| start.has(r, c) implies #[trigger] self.shown(r, c)
                    == CellState::Revealed(Cell::Clean(0)) by {
                    start.lemma_flood_covers_empty_field(row, col, r as usize, c as usize);
                    start.lemma_no_bombs_all_zero(r, c);
                }
            }
        }
        GameState::Running
    }

    /// Puts the hidden cells beside `(i, j)`, which the flood has just
    /// uncovered and which has no bomb around it, on the flood's list, unless
    /// they are on it or were on it before.
    fn spread(
        &self,
        i: usize,
        j: usize,
        pending: &mut Vec<(usize, usize)>,
        queued: &mut Vec<bool>,
        Ghost(start): Ghost<Client>,
        Ghost(origin): Ghost<(usize, usize)>,
        Ghost(done): Ghost<Seq<(usize, usize)>>,
    )
        requires
            start.wf(),
            done.len() > 0,
            done.last() == (i, j),
            start.truth(i as int, j as int) == Cell::Clean(0),
            self.flood_inv(start, origin, done, old(pending)@, old(queued)@),
            start.flood_closed(done.drop_last(), old(pending)@.push((i, j))),
        ensures
            self.flood_inv(start, origin, done, final(pending)@, final(queued)@),
            start.flood_closed(done, final(pending)@),
    {
        let ghost here = (i, j);
        proof {
            self.lemma_flood_inv_facts(start, origin, done, pending@, queued@);
        }
        let neighbours = self.state.neighbours8(i, j);
        let mut m: usize = 0;
        while m < neighbours.len()
            invariant
                start.wf(),
                self.wf(),
                self.board().height() == start.board().height(),
                self.board().width() == start.board().width(),
                here == (i, j),
                done.len() > 0,
                done.last() == here,
                start.truth(i as int, j as int) == Cell::Clean(0),
                self.flood_inv(start, origin, done, pending@, queued@),
                start.flood_closed(done.drop_last(), pending@.push(here)),
                queued@.len() == start.board()@.len(),
                m <= neighbours@.len(),
                forall|q: (usize, usize)|
                    neighbours@.contains(q) <==> self.board().is_neighbour(i, j, q),
                forall|k: int|
                    0 <= k < m ==> (start.shown(
                        (#[trigger] neighbours@[k]).0 as int,
                        neighbours@[k].1 as int,
                    ) == CellState::Hidden ==> done.contains(neighbours@[k]) || pending@.contains(
                        neighbours@[k],
                    )),
            decreases neighbours@.len() - m,
        {
            let (i_n, j_n) = neighbours[m];
            let ghost next = (i_n, j_n);
            let ghost waiting = pending@;
            let ghost marks = queued@;
            proof {
                assert(neighbours@.contains(neighbours@[m as int]));
                assert(self.board().is_neighbour(i, j, next));
            }
            let hidden = match self.state.get(i_n, j_n) {
                Some(CellState::Hidden) => true,
                _ => false,
            };
            let place = match self.state.index(i_n, j_n) {
                Some(place) => place,
                None => vstd::pervasive::unreached(),
            };
            if hidden && !queued[place] {
                queued[place] = true;
                pending.push((i_n, j_n));
                proof {
                    self.lemma_flood_enqueues(start, origin, done, waiting, marks, here, next);
                    assert(queued@ =~= marks.update(
                        offset_of(start.board().width(), i_n as int, j_n as int),
                        true,
                    ));
                }
            } else {
                proof {
                    self.lemma_flood_listed(start, origin, done, waiting, marks, next);
                }
            }
            proof {
                assert forall|k: int| 0 <= k < m + 1 && start.shown(
                    (#[trigger] neighbours@[k]).0 as int,
                    neighbours@[k].1 as int,
                ) == CellState::Hidden implies done.contains(neighbours@[k]) || pending@.contains(
                    neighbours@[k],
                ) by {
                    lemma_seq_contains_after_push(waiting, next, neighbours@[k]);
                }
            }
            m += 1;
        }
        proof {
            assert forall|to: (usize, usize)|
                start.board().is_neighbour(i, j, to) && start.shown(to.0 as int, to.1 as int)
                    == CellState::Hidden implies done.contains(to) || pending@.contains(to) by {
                assert(neighbours@.contains(to));
                let k = choose|k: int| 0 <= k < neighbours@.len() && neighbours@[k] == to;
                assert(start.shown(neighbours@[k].0 as int, neighbours@[k].1 as int)
                    == CellState::Hidden);
            }
            start.lemma_closed_after_spread(done, pending@, here);
        }
    }

    /// What a flood starts from: nothing is uncovered yet, and the origin
    /// alone waits.
    proof fn lemma_flood_begins(&self, origin: (usize, usize))
        requires
            self.wf(),
            self.has(origin.0 as int, origin.1 as int),
        ensures
            self.flood_inv(
                *self,
                origin,
                Seq::empty(),
                seq![origin],
                Seq::new(self.board()@.len(), |k: int| false).update(
                    offset_of(self.board().width(), origin.0 as int, origin.1 as int),
                    true,
                ),
            ),
            self.flood_closed(Seq::empty(), seq![origin]),
    {
        reveal(Client::flood_inv);
        reveal(Client::flood_closed);
        let done = Seq::<(usize, usize)>::empty();
        let pending = seq![origin];
        let height = self.board().height();
        let width = self.board().width();
        let queued = Seq::new(self.board()@.len(), |k: int| false).update(
            offset_of(width, origin.0 as int, origin.1 as int),
            true,
        );
        self.lemma_floods_start(origin.0, origin.1);
        lemma_offset_in_bounds(height, width, origin.0 as int, origin.1 as int);
        assert(pending[0] == origin);
        assert(pending.contains(origin));
        assert(pending.no_duplicates());
        assert(self.may_wait(*self, origin, done, pending[0]));
        assert forall|r: int, c: int| self.has(r, c) implies (queued[#[trigger] offset_of(
            width,
            r,
            c,
        )] <==> done.contains((r as usize, c as usize)) || pending.contains(
            (r as usize, c as usize),
        )) by {
            lemma_offset_in_bounds(height, width, r, c);
            lemma_offset_in_bounds(height, width, origin.0 as int, origin.1 as int);
            lemma_coords_of_offset(height, width, r, c);
            lemma_coords_of_offset(height, width, origin.0 as int, origin.1 as int);
        }
    }

    /// What is known of the game between two steps of a flood, and of the
    /// cell that is next in turn.
    proof fn lemma_flood_inv_facts(
        &self,
        start: Client,
        origin: (usize, usize),
        done: Seq<(usize, usize)>,
        pending: Seq<(usize, usize)>,
        queued: Seq<bool>,
    )
        requires
            self.flood_inv(start, origin, done, pending, queued),
        ensures
            self.wf(),
            self.layout() == start.layout(),
            self.board().height() == start.board().height(),
            self.board().width() == start.board().width(),
            queued.len() == start.board()@.len(),
            pending.len() > 0 ==> start.has(pending.last().0 as int, pending.last().1 as int),
    {
        reveal(Client::flood_inv);
        if pending.len() > 0 {
            assert(self.may_wait(start, origin, done, pending[pending.len() - 1]));
        }
    }

    /// A neighbour that is not hidden any more, or is marked as listed, is
    /// done or waits, if it was hidden when the flood began.
    proof fn lemma_flood_listed(
        &self,
        start: Client,
        origin: (usize, usize),
        done: Seq<(usize, usize)>,
        waiting: Seq<(usize, usize)>,
        marks: Seq<bool>,
        next: (usize, usize),
    )
        requires
            self.flood_inv(start, origin, done, waiting, marks),
            start.has(next.0 as int, next.1 as int),
            self.shown(next.0 as int, next.1 as int) != CellState::Hidden || marks[offset_of(
                start.board().width(),
                next.0 as int,
                next.1 as int,
            )],
        ensures
            start.shown(next.0 as int, next.1 as int) == CellState::Hidden ==> done.contains(next)
                || waiting.contains(next),
    {
        reveal(Client::flood_inv);
        assert(self.shown(next.0 as int, next.1 as int) == if done.contains(next) {
            CellState::Revealed(start.truth(next.0 as int, next.1 as int))
        } else {
            start.shown(next.0 as int, next.1 as int)
        });
    }

    /// Once every hidden neighbour of the bomb-free cell `here` is done or
    /// waits, `here` itself need not wait for them any longer.
    proof fn lemma_closed_after_spread(
        &self,
        done: Seq<(usize, usize)>,
        pending: Seq<(usize, usize)>,
        here: (usize, usize),
    )
        requires
            done.len() > 0,
            done.last() == here,
            self.flood_closed(done.drop_last(), pending.push(here)),
            forall|to: (usize, usize)|
                self.board().is_neighbour(here.0, here.1, to) && self.shown(
                    to.0 as int,
                    to.1 as int,
                ) == CellState::Hidden ==> done.contains(to) || pending.contains(to),
        ensures
            self.flood_closed(done, pending),
    {
        reveal(Client::flood_closed);
        assert(done =~= done.drop_last().push(here));
        assert forall|from: (usize, usize), to: (usize, usize)|
            #![trigger done.contains(from), self.flood_step(from, to)]
            done.contains(from) && self.flood_step(from, to) implies done.contains(to)
            || pending.contains(to) by {
            lemma_seq_contains_after_push(done.drop_last(), here, from);
            lemma_seq_contains_after_push(done.drop_last(), here, to);
            lemma_seq_contains_after_push(pending, here, to);
        }
    }

    /// When no cell waits any more, the cells that are done are the cells
    /// that the flood uncovers, and the game shows them.
    proof fn lemma_flood_finished(
        &self,
        start: Client,
        origin: (usize, usize),
        done: Seq<(usize, usize)>,
        queued: Seq<bool>,
    )
        requires
            start.wf(),
            self.flood_inv(start, origin, done, Seq::empty(), queued),
            start.flood_closed(done, Seq::empty()),
        ensures
            self.wf(),
            self.layout() == start.layout(),
            self.board().height() == start.board().height(),
            self.board().width() == start.board().width(),
            forall|r: int, c: int|
                start.has(r, c) ==> #[trigger] self.shown(r, c) == if start.floods(
                    origin.0,
                    origin.1,
                    (r as usize, c as usize),
                ) {
                    CellState::Revealed(start.truth(r, c))
                } else {
                    start.shown(r, c)
                },
            self.status() == if start.truth(origin.0 as int, origin.1 as int) == Cell::Bomb {
                GameState::Lost
            } else {
                start.status()
            },
    {
        reveal(Client::flood_inv);
        let nothing = Seq::<(usize, usize)>::empty();
        assert(!nothing.contains(origin));
        assert forall|r: int, c: int| start.has(r, c) implies (done.contains(
            (r as usize, c as usize),
        ) <==> start.floods(origin.0, origin.1, (r as usize, c as usize))) by {
            let target = (r as usize, c as usize);
            if done.contains(target) {
                let k = choose|k: int| 0 <= k < done.len() && done[k] == target;
                assert(start.floods(origin.0, origin.1, done[k]));
            }
            if start.floods(origin.0, origin.1, target) {
                let path = choose|path: Seq<(usize, usize)>| #[trigger]
                    start.is_flood_path(origin.0, origin.1, path) && path.last() == target;
                start.lemma_flood_within(origin.0, origin.1, done, path, path.len() - 1);
            }
        }
    }

    /// Uncovering the cell `here`, which waited its turn, keeps what holds
    /// between two steps of the flood, and `here` counts as done.
    proof fn lemma_flood_uncovers(
        start: Client,
        before: Client,
        after: Client,
        origin: (usize, usize),
        done: Seq<(usize, usize)>,
        rest: Seq<(usize, usize)>,
        queued: Seq<bool>,
        here: (usize, usize),
        cell: Cell,
    )
        requires
            start.wf(),
            before.flood_inv(start, origin, done, rest.push(here), queued),
            after.wf(),
            after.layout() == before.layout(),
            after.board().height() == before.board().height(),
            after.board().width() == before.board().width(),
            cell == before.truth(here.0 as int, here.1 as int),
            forall|r: int, c: int|
                before.has(r, c) ==> #[trigger] after.shown(r, c) == if r == here.0 && c
                    == here.1 {
                    CellState::Revealed(cell)
                } else {
                    before.shown(r, c)
                },
            after.status() == if cell == Cell::Bomb {
                GameState::Lost
            } else {
                before.status()
            },
        ensures
            after.flood_inv(start, origin, done.push(here), rest, queued),
            done.len() < start.board()@.len(),
            cell == start.truth(here.0 as int, here.1 as int),
    {
        reveal(Client::flood_inv);
        let waiting = rest.push(here);
        let grown = done.push(here);
        assert(waiting[waiting.len() - 1] == here);
        assert(before.may_wait(start, origin, done, waiting[waiting.len() - 1]));
        assert(!rest.contains(here)) by {
            if rest.contains(here) {
                let idx = choose|idx: int| 0 <= idx < rest.len() && rest[idx] == here;
                assert(waiting[idx] == waiting[waiting.len() - 1]);
            }
        }
        assert forall|p: (usize, usize)| waiting.contains(p) <==> rest.contains(p) || p
            == here by {
            lemma_seq_contains_after_push(rest, here, p);
        }
        assert forall|p: (usize, usize)| grown.contains(p) <==> done.contains(p) || p
            == here by {
            lemma_seq_contains_after_push(done, here, p);
        }
        assert(grown.no_duplicates()) by {
            assert forall|a: int, b: int|
                0 <= a < grown.len() && 0 <= b < grown.len() && a != b implies grown[a]
                != grown[b] by {
                if a == done.len() {
                    assert(done.contains(done[b]));
                } else if b == done.len() {
                    assert(done.contains(done[a]));
                }
            }
        }
        assert(rest.no_duplicates()) by {
            assert forall|a: int, b: int|
                0 <= a < rest.len() && 0 <= b < rest.len() && a != b implies rest[a]
                != rest[b] by {
                assert(waiting[a] == rest[a] && waiting[b] == rest[b]);
            }
        }
        assert forall|k: int| 0 <= k < grown.len() implies {
            &&& start.has((#[trigger] grown[k]).0 as int, grown[k].1 as int)
            &&& start.floods(origin.0, origin.1, grown[k])
            &&& grown[k] != origin ==> start.truth(grown[k].0 as int, grown[k].1 as int)
                != Cell::Bomb
        } by {
            if k < done.len() {
                assert(grown[k] == done[k]);
            }
        }
        assert forall|k: int| 0 <= k < rest.len() implies after.may_wait(
            start,
            origin,
            grown,
            #[trigger] rest[k],
        ) by {
            assert(waiting[k] == rest[k]);
            assert(before.may_wait(start, origin, done, waiting[k]));
            assert(rest.contains(rest[k]));
        }
        lemma_distinct_cells_bounded(start.board().height(), start.board().width(), grown);
        assert(before.shown(here.0 as int, here.1 as int) == start.shown(
            here.0 as int,
            here.1 as int,
        ));
    }

    /// Putting the hidden cell `next`, which lies beside the bomb-free cell
    /// `here` and was never listed, on the flood's list keeps what holds
    /// between two steps of the flood.
    proof fn lemma_flood_enqueues(
        &self,
        start: Client,
        origin: (usize, usize),
        done: Seq<(usize, usize)>,
        waiting: Seq<(usize, usize)>,
        marks: Seq<bool>,
        here: (usize, usize),
        next: (usize, usize),
    )
        requires
            start.wf(),
            self.flood_inv(start, origin, done, waiting, marks),
            done.contains(here),
            start.truth(here.0 as int, here.1 as int) == Cell::Clean(0),
            start.board().is_neighbour(here.0, here.1, next),
            self.shown(next.0 as int, next.1 as int) == CellState::Hidden,
            !marks[offset_of(start.board().width(), next.0 as int, next.1 as int)],
            start.flood_closed(done.drop_last(), waiting.push(here)),
        ensures
            self.flood_inv(
                start,
                origin,
                done,
                waiting.push(next),
                marks.update(offset_of(start.board().width(), next.0 as int, next.1 as int), true),
            ),
            start.flood_closed(done.drop_last(), waiting.push(next).push(here)),
            0 <= offset_of(start.board().width(), next.0 as int, next.1 as int) < marks.len(),
    {
        reveal(Client::flood_inv);
        reveal(Client::flood_closed);
        let longer = waiting.push(next);
        let width = start.board().width();
        let height = start.board().height();
        let place = offset_of(width, next.0 as int, next.1 as int);
        lemma_offset_in_bounds(height, width, next.0 as int, next.1 as int);
        assert(!done.contains(next) && !waiting.contains(next));
        assert(start.shown(next.0 as int, next.1 as int) == CellState::Hidden);
        let k_here = choose|k: int| 0 <= k < done.len() && done[k] == here;
        assert(start.floods(origin.0, origin.1, done[k_here]));
        assert(start.flood_step(here, next));
        start.lemma_floods_step(origin.0, origin.1, here, next);
        lemma_no_bomb_beside_zero(
            start.layout().cells(),
            here.0 as int,
            here.1 as int,
            next.0 as int,
            next.1 as int,
        );
        assert forall|p: (usize, usize)| longer.contains(p) <==> waiting.contains(p) || p
            == next by {
            lemma_seq_contains_after_push(waiting, next, p);
        }
        assert(longer.no_duplicates()) by {
            assert forall|a: int, b: int|
                0 <= a < longer.len() && 0 <= b < longer.len() && a != b implies longer[a]
                != longer[b] by {
                if a == waiting.len() {
                    assert(waiting.contains(waiting[b]));
                } else if b == waiting.len() {
                    assert(waiting.contains(waiting[a]));
                }
            }
        }
        assert forall|r: int, c: int| start.has(r, c) implies (marks.update(
            place,
            true,
        )[#[trigger] offset_of(width, r, c)] <==> done.contains((r as usize, c as usize))
            || longer.contains((r as usize, c as usize))) by {
            lemma_offset_in_bounds(height, width, r, c);
            lemma_coords_of_offset(height, width, r, c);
            lemma_coords_of_offset(height, width, next.0 as int, next.1 as int);
        }
        assert forall|k: int| 0 <= k < longer.len() implies self.may_wait(
            start,
            origin,
            done,
            #[trigger] longer[k],
        ) by {
            if k < waiting.len() {
                assert(longer[k] == waiting[k]);
                assert(self.may_wait(start, origin, done, waiting[k]));
            }
        }
        assert forall|from: (usize, usize), to: (usize, usize)|
            #![trigger done.drop_last().contains(from), start.flood_step(from, to)]
            done.drop_last().contains(from) && start.flood_step(from, to)
                implies done.drop_last().contains(to) || longer.push(here).contains(to) by {
            lemma_seq_contains_after_push(longer, here, to);
            lemma_seq_contains_after_push(waiting, here, to);
        }
    }

    /// A cell with a bomb around it, or with a bomb under it, adds nothing to
    /// what must still be uncovered.
    proof fn lemma_closed_without_spread(
        &self,
        done: Seq<(usize, usize)>,
        rest: Seq<(usize, usize)>,
        here: (usize, usize),
    )
        requires
            self.flood_closed(done, rest.push(here)),
            self.truth(here.0 as int, here.1 as int) != Cell::Clean(0),
        ensures
            self.flood_closed(done.push(here), rest),
    {
        reveal(Client::flood_closed);
        assert forall|from: (usize, usize), to: (usize, usize)|
            #![trigger done.push(here).contains(from), self.flood_step(from, to)]
            done.push(here).contains(from) && self.flood_step(from, to) implies done.push(
            here,
        ).contains(to) || rest.contains(to) by {
            lemma_seq_contains_after_push(done, here, from);
            lemma_seq_contains_after_push(done, here, to);
            lemma_seq_contains_after_push(rest, here, to);
        }
    }

    /// Whether the cell `p` may wait its turn in a flood from `origin`: it is
    /// a cell of the game that the flood uncovers and has not uncovered yet,
    /// and unless it is the origin it is hidden and holds no bomb.
    spec fn may_wait(
        &self,
        start: Client,
        origin: (usize, usize),
        done: Seq<(usize, usize)>,
        p: (usize, usize),
    ) -> bool {
        &&& start.has(p.0 as int, p.1 as int)
        &&& !done.contains(p)
        &&& start.floods(origin.0, origin.1, p)
        &&& p != origin ==> start.shown(p.0 as int, p.1 as int) == CellState::Hidden
            && start.truth(p.0 as int, p.1 as int) != Cell::Bomb
    }

    /// What holds between two steps of a flood from `origin` that began in
    /// the game `start`: `done` are the cells uncovered so far, `pending`
    /// those that wait, and `queued` marks the offsets of both.
    #[verifier::opaque]
    spec fn flood_inv(
        &self,
        start: Client,
        origin: (usize, usize),
        done: Seq<(usize, usize)>,
        pending: Seq<(usize, usize)>,
        queued: Seq<bool>,
    ) -> bool {
        &&& self.wf()
        &&& self.layout() == start.layout()
        &&& self.board().height() == start.board().height()
        &&& self.board().width() == start.board().width()
        &&& queued.len() == start.board()@.len()
        &&& forall|r: int, c: int|
            start.has(r, c) ==> (queued[#[trigger] offset_of(start.board().width(), r, c)]
                <==> done.contains((r as usize, c as usize)) || pending.contains(
                (r as usize, c as usize),
            ))
        &&& pending.no_duplicates()
        &&& forall|k: int|
            0 <= k < pending.len() ==> self.may_wait(start, origin, done, #[trigger] pending[k])
        &&& done.no_duplicates()
        &&& done.len() <= start.board()@.len()
        &&& forall|k: int|
            0 <= k < done.len() ==> {
                &&& start.has((#[trigger] done[k]).0 as int, done[k].1 as int)
                &&& start.floods(origin.0, origin.1, done[k])
                &&& done[k] != origin ==> start.truth(done[k].0 as int, done[k].1 as int)
                    != Cell::Bomb
            }
        &&& forall|r: int, c: int|
            start.has(r, c) ==> #[trigger] self.shown(r, c) == if done.contains(
                (r as usize, c as usize),
            ) {
                CellState::Revealed(start.truth(r, c))
            } else {
                start.shown(r, c)
            }
        &&& done.contains(origin) || pending.contains(origin)
        &&& self.status() == if done.contains(origin) && start.truth(
            origin.0 as int,
            origin.1 as int,
        ) == Cell::Bomb {
            GameState::Lost
        } else {
            start.status()
        }
    }
}

/// A cell that counts no bomb around it has no bomb beside it.
pub proof fn lemma_no_bomb_beside_zero(field: Grid<Cell>, row: int, col: int, r: int, c: int)
    requires
        bombs_around(field, row, col) == 0,
        adjacent((row, col), (r, c)),
        field.has(r, c),
    ensures
        field.at(r, c) != Cell::Bomb,
{
}

/// Cells of a grid, no one of them listed twice, are at most as many as the
/// grid has cells.
pub proof fn lemma_distinct_cells_bounded(height: nat, width: nat, cells: Seq<(usize, usize)>)
    requires
        cells.no_duplicates(),
        forall|k: int|
            0 <= k < cells.len() ==> in_range(
                height,
                width,
                (#[trigger] cells[k]).0 as int,
                cells[k].1 as int,
            ),
    ensures
        cells.len() <= height * width,
{
    let offsets = Seq::new(
        cells.len(),
        |k: int| offset_of(width, cells[k].0 as int, cells[k].1 as int),
    );
    assert forall|a: int, b: int|
        0 <= a < offsets.len() && 0 <= b < offsets.len() && a != b implies offsets[a]
        != offsets[b] by {
        lemma_coords_of_offset(height, width, cells[a].0 as int, cells[a].1 as int);
        lemma_coords_of_offset(height, width, cells[b].0 as int, cells[b].1 as int);
    }
    offsets.unique_seq_to_set();
    let all = vstd::set_lib::set_int_range(0, (height * width) as int);
    assert forall|o: int| offsets.to_set().contains(o) implies all.contains(o) by {
        let k = choose|k: int| 0 <= k < offsets.len() && offsets[k] == o;
        lemma_offset_in_bounds(height, width, cells[k].0 as int, cells[k].1 as int);
    }
    vstd::set_lib::lemma_int_range(0, (height * width) as int);
    vstd::set_lib::lemma_len_subset(offsets.to_set(), all);
}

} // verus!
