//! The full-screen front end: where the cursor may go, what a key or a click
//! asks for, and the picture of the game as text for the terminal.

use crate::minefield::client::{CellState, Client, GameState};
use crate::ascii_client::repeated;
use crate::minefield::field::Cell;
use crate::minefield::text::{append_decimal, decimal, join};
use crate::terminal::{
    background, background_code, blinking_block, blinking_block_code, clear_after_cursor,
    clear_after_cursor_code, clear_all, clear_all_code, foreground, foreground_code, goto,
    goto_code, Colour,
};
use vstd::prelude::*;
use vstd::string::StringExecFns;

verus! {

/// The line and the column of the terminal at which the frame of the board
/// begins.
pub const GRID_OFFSET: (u16, u16) = (5, 3);

/// A game that is played with a cursor on the full screen.
pub struct TuiClient {
    current_cursor: (u16, u16),
    client: Client,
}

/// What the player asks for with a key.
#[derive(Copy, Clone, PartialEq, Eq, Debug, Structural)]
pub enum TuiAction {
    Exit,
    Flag,
    Query,
    Submit,
    /// Nothing is to be done to the game.
    Nothing,
}

/// What the terminal reports.
#[derive(Copy, Clone, PartialEq, Eq, Debug, Structural)]
pub enum TuiEvent {
    /// The key of a character.
    Char(char),
    /// An arrow key.
    Left,
    Right,
    Up,
    Down,
    /// A mouse button was let go at this column and line.
    Release(u16, u16),
    /// Anything else.
    Other,
}

/// What the key of an event asks for: `q` leaves, the space bar uncovers,
/// `f` flags and `s` submits.
pub open spec fn action_of(event: TuiEvent) -> TuiAction {
    match event {
        TuiEvent::Char(c) => if c == 'q' {
            TuiAction::Exit
        } else if c == ' ' {
            TuiAction::Query
        } else if c == 'f' {
            TuiAction::Flag
        } else if c == 's' {
            TuiAction::Submit
        } else {
            TuiAction::Nothing
        },
        _ => TuiAction::Nothing,
    }
}

/// Where an event sends a cursor that stands at `cursor`, as column and line;
/// nowhere if that place has no number.
pub open spec fn target_of(cursor: (u16, u16), event: TuiEvent) -> Option<(u16, u16)> {
    match event {
        TuiEvent::Left => if cursor.0 > 0 {
            Some(((cursor.0 - 1) as u16, cursor.1))
        } else {
            None
        },
        TuiEvent::Right => if cursor.0 < u16::MAX {
            Some(((cursor.0 + 1) as u16, cursor.1))
        } else {
            None
        },
        TuiEvent::Up => if cursor.1 > 0 {
            Some((cursor.0, (cursor.1 - 1) as u16))
        } else {
            None
        },
        TuiEvent::Down => if cursor.1 < u16::MAX {
            Some((cursor.0, (cursor.1 + 1) as u16))
        } else {
            None
        },
        TuiEvent::Release(i, j) => Some((i, j)),
        _ => Some(cursor),
    }
}

/// What is said when the game is left.
pub open spec fn goodbye_of(state: GameState, request_exit: bool) -> Seq<char> {
    match state {
        GameState::Lost => if request_exit {
            "No time anymore ? See you soon !"@
        } else {
            "Another time !"@
        },
        GameState::Won => "Congratulations ! You're the best! "@,
        GameState::Running => "How do you do that ????"@,
    }
}

/// What is said when the game is left.
pub fn goodbye_sentence(state: GameState, request_exit: bool) -> (sentence: &'static str)
    ensures
        sentence@ == goodbye_of(state, request_exit),
{
    match state {
        GameState::Lost => if request_exit {
            "No time anymore ? See you soon !"
        } else {
            "Another time !"
        },
        GameState::Won => "Congratulations ! You're the best! ",
        GameState::Running => "How do you do that ????",
    }
}

impl TuiClient {
    /// Where the cursor stands, as column and line of the terminal.
    pub closed spec fn cursor_at(&self) -> (u16, u16) {
        self.current_cursor
    }

    /// The game that is played.
    pub closed spec fn game(&self) -> Client {
        self.client
    }

    /// The cell of the board that lies at a line and a column of the
    /// terminal, if one does: the board begins one line below and one column
    /// right of `GRID_OFFSET`.
    pub open spec fn cell_at(&self, cursor_row: u16, cursor_col: u16) -> Option<(usize, usize)> {
        if GRID_OFFSET.0 < cursor_row && cursor_row - GRID_OFFSET.0 - 1
            < self.game().board().height() && GRID_OFFSET.1 < cursor_col && cursor_col
            - GRID_OFFSET.1 - 1 < self.game().board().width() {
            Some(
                (
                    (cursor_row - GRID_OFFSET.0 - 1) as usize,
                    (cursor_col - GRID_OFFSET.1 - 1) as usize,
                ),
            )
        } else {
            None
        }
    }

    /// The game is well formed and the cursor stands on a cell of the board.
    pub open spec fn wf(&self) -> bool {
        &&& self.game().wf()
        &&& self.cell_at(self.cursor_at().1, self.cursor_at().0) is Some
    }

    /// Starts on `client` with the cursor on the first cell of the board.
    pub fn new(client: Client) -> (tui: TuiClient)
        requires
            client.wf(),
        ensures
            tui.wf(),
            tui.game() == client,
            tui.cursor_at() == ((GRID_OFFSET.1 + 1) as u16, (GRID_OFFSET.0 + 1) as u16),
    {
        TuiClient { current_cursor: (GRID_OFFSET.1 + 1, GRID_OFFSET.0 + 1), client }
    }

    /// The cell of the board that lies at a line and a column of the
    /// terminal, if one does.
    pub fn to_grid_coordinates(&self, cursor_row: u16, cursor_col: u16) -> (cell: Option<
        (usize, usize),
    >)
        requires
            self.game().wf(),
        ensures
            cell == self.cell_at(cursor_row, cursor_col),
    {
        let (grid_h, grid_w) = self.client.get_state().shape();
        if cursor_row > GRID_OFFSET.0 && cursor_col > GRID_OFFSET.1 {
            let grid_row: usize = (cursor_row - GRID_OFFSET.0 - 1) as usize;
            let grid_col: usize = (cursor_col - GRID_OFFSET.1 - 1) as usize;
            if grid_row < grid_h && grid_col < grid_w {
                Some((grid_row, grid_col))
            } else {
                None
            }
        } else {
            None
        }
    }

    /// Where the cursor stands, as column and line of the terminal.
    pub fn cursor(&self) -> (cursor: (u16, u16))
        ensures
            cursor == self.cursor_at(),
    {
        self.current_cursor
    }

    /// The game that is played.
    pub fn client(&self) -> (client: &Client)
        ensures
            *client == self.game(),
    {
        &self.client
    }

    /// Takes note of one event: the cursor goes where the event sends it if a
    /// cell of the board lies there, and stays where it is if not. Returns
    /// what the event asks for.
    pub fn parse_event(&mut self, c: TuiEvent) -> (action: TuiAction)
        requires
            old(self).wf(),
        ensures
            final(self).wf(),
            final(self).game() == old(self).game(),
            action == action_of(c),
            final(self).cursor_at() == match target_of(old(self).cursor_at(), c) {
                Some(target) => if old(self).cell_at(target.1, target.0) is Some {
                    target
                } else {
                    old(self).cursor_at()
                },
                None => old(self).cursor_at(),
            },
    {
        let cursor = self.current_cursor;
        let mut target_cursor: Option<(u16, u16)> = Some(cursor);
        let mut action = TuiAction::Nothing;
        match c {
            TuiEvent::Char(key) => {
                if key == 'q' {
                    action = TuiAction::Exit;
                } else if key == ' ' {
                    action = TuiAction::Query;
                } else if key == 'f' {
                    action = TuiAction::Flag;
                } else if key == 's' {
                    action = TuiAction::Submit;
                }
            },
            TuiEvent::Left => {
                target_cursor = if cursor.0 > 0 {
                    Some((cursor.0 - 1, cursor.1))
                } else {
                    None
                };
            },
            TuiEvent::Right => {
                target_cursor = if cursor.0 < u16::MAX {
                    Some((cursor.0 + 1, cursor.1))
                } else {
                    None
                };
            },
            TuiEvent::Up => {
                target_cursor = if cursor.1 > 0 {
                    Some((cursor.0, cursor.1 - 1))
                } else {
                    None
                };
            },
            TuiEvent::Down => {
                target_cursor = if cursor.1 < u16::MAX {
                    Some((cursor.0, cursor.1 + 1))
                } else {
                    None
                };
            },
            TuiEvent::Release(i, j) => {
                target_cursor = Some((i, j));
            },
            TuiEvent::Other => {},
        }
        match target_cursor {
            Some(target) => {
                if self.to_grid_coordinates(target.1, target.0).is_some() {
                    self.current_cursor = target;
                }
            },
            None => {},
        }
        action
    }

    /// Whether this front end is `before` after the event `c`, with the game
    /// played on as the event asks: the cell under the cursor is flagged or
    /// flooded, the flags are submitted, or the game is left alone.
    pub open spec fn is_turn_of(&self, before: TuiClient, c: TuiEvent) -> bool {
        let cell = self.cell_at(self.cursor_at().1, self.cursor_at().0).unwrap();
        match action_of(c) {
            TuiAction::Flag => self.game().is_flag_of(before.game(), cell.0, cell.1),
            TuiAction::Query => self.game().is_flood_of(before.game(), cell.0, cell.1),
            TuiAction::Submit => self.game().is_submission_of(before.game()),
            _ => self.game() == before.game(),
        }
    }

    /// Plays one event: the cursor moves as `parse_event` says, and what the
    /// event asks of the game is done to the cell under the cursor. Returns
    /// what the event asks for.
    pub fn act(&mut self, c: TuiEvent) -> (action: TuiAction)
        requires
            old(self).wf(),
            action_of(c) == TuiAction::Submit ==> old(self).game().status() == GameState::Running,
        ensures
            final(self).wf(),
            action == action_of(c),
            final(self).cursor_at() == match target_of(old(self).cursor_at(), c) {
                Some(target) => if old(self).cell_at(target.1, target.0) is Some {
                    target
                } else {
                    old(self).cursor_at()
                },
                None => old(self).cursor_at(),
            },
            final(self).is_turn_of(*old(self), c),
    {
        let action = self.parse_event(c);
        let grid_pos = match self.to_grid_coordinates(self.current_cursor.1, self.current_cursor.0) {
            Some(cell) => cell,
            None => vstd::pervasive::unreached(),
        };
        match action {
            TuiAction::Flag => {
                let flagged = self.client.flag(grid_pos.0, grid_pos.1);
            },
            TuiAction::Query => {
                let running = self.client.query_smart(grid_pos.0, grid_pos.1);
            },
            TuiAction::Submit => {
                let verdict = self.client.submit();
            },
            TuiAction::Exit => {},
            TuiAction::Nothing => {},
        }
        action
    }

    /// Ends the game once it is over or the player leaves: every cell is
    /// uncovered then. Returns whether the game has ended.
    pub fn wrap_up(&mut self, request_exit: bool) -> (over: bool)
        requires
            old(self).wf(),
        ensures
            final(self).wf(),
            final(self).cursor_at() == old(self).cursor_at(),
            over == (old(self).game().status() != GameState::Running || request_exit),
            over ==> final(self).game().is_sweep_of(old(self).game(), true),
            !over ==> final(self).game() == old(self).game(),
    {
        let running = match self.client.get_game_state() {
            GameState::Running => true,
            _ => false,
        };
        if !running || request_exit {
            self.client.reveal_board(true);
            true
        } else {
            false
        }
    }
}

/// The colour in which a count of bombs is painted.
pub open spec fn count_colour(count: u8) -> Colour {
    if count == 1 {
        Colour::Blue
    } else if count == 2 {
        Colour::Green
    } else if count == 3 {
        Colour::Red
    } else if count == 4 {
        Colour::Cyan
    } else if count == 5 {
        Colour::LightGreen
    } else if count == 6 {
        Colour::Magenta
    } else {
        Colour::White
    }
}

/// How a cell looks on the screen: a white block while it is hidden, a black
/// sign on white under a flag, `*` for a bomb, a blank where no bomb is
/// around, and else the number of bombs around in its colour.
pub open spec fn pretty_text(c: CellState) -> Seq<char> {
    match c {
        CellState::Hidden => background_code(Colour::White) + seq![' '] + background_code(
            Colour::Reset,
        ),
        CellState::Flagged => foreground_code(Colour::Black) + background_code(Colour::White)
            + seq!['¶'] + background_code(Colour::Reset) + foreground_code(Colour::Reset),
        CellState::Revealed(Cell::Bomb) => seq!['*'],
        CellState::Revealed(Cell::Clean(n)) => if n == 0 {
            seq![' ']
        } else {
            foreground_code(count_colour(n)) + decimal(n as nat) + foreground_code(Colour::Reset)
        },
        CellState::Marked => seq!['▟'],
    }
}

/// How a cell looks on the screen.
pub fn cellstate_to_prettystring(c: &CellState) -> (shape: String)
    ensures
        shape@ == pretty_text(*c),
{
    proof {
        reveal_strlit(" ");
        reveal_strlit("¶");
        reveal_strlit("*");
        reveal_strlit("▟");
        assert(" "@ =~= seq![' ']);
        assert("¶"@ =~= seq!['¶']);
        assert("*"@ =~= seq!['*']);
        assert("▟"@ =~= seq!['▟']);
    }
    match c {
        CellState::Hidden => {
            let mut shape = background(Colour::White);
            shape.append(" ");
            shape.append(background(Colour::Reset).as_str());
            shape
        },
        CellState::Flagged => {
            let mut shape = foreground(Colour::Black);
            shape.append(background(Colour::White).as_str());
            shape.append("¶");
            shape.append(background(Colour::Reset).as_str());
            shape.append(foreground(Colour::Reset).as_str());
            shape
        },
        CellState::Revealed(r) => match r {
            Cell::Bomb => String::from_str("*"),
            Cell::Clean(n) => {
                let i: u8 = *n;
                if i == 0 {
                    String::from_str(" ")
                } else {
                    let colour = if i == 1 {
                        Colour::Blue
                    } else if i == 2 {
                        Colour::Green
                    } else if i == 3 {
                        Colour::Red
                    } else if i == 4 {
                        Colour::Cyan
                    } else if i == 5 {
                        Colour::LightGreen
                    } else if i == 6 {
                        Colour::Magenta
                    } else {
                        Colour::White
                    };
                    let mut shape = foreground(colour);
                    append_decimal(&mut shape, i as usize);
                    shape.append(foreground(Colour::Reset).as_str());
                    shape
                }
            },
        },
        CellState::Marked => String::from_str("▟"),
    }
}

/// The two bars at the sides of line `x` of a frame, each behind the
/// sequence that moves the cursor to it.
pub open spec fn side_text(origin_x: u16, origin_y: u16, width: u16, x: int) -> Seq<char> {
    goto_code(origin_y, (origin_x + x) as u16) + seq!['┃'] + goto_code(
        (origin_y + width - 1) as u16,
        (origin_x + x) as u16,
    ) + seq!['┃']
}

/// The sides of the lines of a frame from the second one to the line
/// `count`.
pub open spec fn sides_text(origin_x: u16, origin_y: u16, width: u16, count: nat) -> Seq<char> {
    join(Seq::new(count, |k: int| side_text(origin_x, origin_y, width, k + 1)), Seq::empty())
}

/// A frame of `height` lines and `width` columns whose upper left corner is
/// at line `origin_x` and column `origin_y`: its upper edge, its sides and
/// its lower edge, each behind the sequence that moves the cursor to it.
pub open spec fn box_text(origin_x: u16, origin_y: u16, height: u16, width: u16) -> Seq<char> {
    goto_code(origin_y, origin_x) + seq!['┏'] + repeated('━', (width - 2) as nat) + seq!['┓']
        + sides_text(origin_x, origin_y, width, (height - 2) as nat) + goto_code(
        origin_y,
        (origin_x + height - 1) as u16,
    ) + seq!['┗'] + repeated('━', (width - 2) as nat) + seq!['┛']
}

/// A horizontal bar over `width` columns.
fn bar(width: u16) -> (line: String)
    ensures
        line@ == repeated('━', width as nat),
{
    let mut line = String::new();
    let mut k: u16 = 0;
    proof {
        reveal_strlit("━");
        assert("━"@ =~= seq!['━']);
    }
    assert(line@ =~= repeated('━', 0));
    while k < width
        invariant
            k <= width,
            line@ == repeated('━', k as nat),
            "━"@ == seq!['━'],
        decreases width - k,
    {
        line.append("━");
        assert(line@ =~= repeated('━', (k + 1) as nat));
        k += 1;
    }
    line
}

impl TuiClient {
    /// The text that draws a frame of `height` lines and `width` columns with
    /// its upper left corner at line `origin_x` and column `origin_y`.
    pub fn draw_box(origin_x: u16, origin_y: u16, height: u16, width: u16) -> (out: String)
        requires
            height >= 2,
            width >= 2,
            origin_x + height <= u16::MAX,
            origin_y + width <= u16::MAX,
            origin_x > 0 || origin_y > 0,
        ensures
            out@ == box_text(origin_x, origin_y, height, width),
    {
        proof {
            reveal_strlit("┏");
            reveal_strlit("┓");
            reveal_strlit("┃");
            reveal_strlit("┗");
            reveal_strlit("┛");
            assert("┏"@ =~= seq!['┏']);
            assert("┓"@ =~= seq!['┓']);
            assert("┃"@ =~= seq!['┃']);
            assert("┗"@ =~= seq!['┗']);
            assert("┛"@ =~= seq!['┛']);
        }
        let edge = bar(width - 2);
        let mut out = goto(origin_y, origin_x);
        out.append("┏");
        out.append(edge.as_str());
        out.append("┓");
        let ghost head = out@;
        assert(out@ =~= head + sides_text(origin_x, origin_y, width, 0));
        let mut x: u16 = 1;
        while x < height - 1
            invariant
                height >= 2,
                width >= 2,
                origin_x + height <= u16::MAX,
                origin_y + width <= u16::MAX,
                1 <= x <= height - 1,
                out@ == head + sides_text(origin_x, origin_y, width, (x - 1) as nat),
                "┃"@ == seq!['┃'],
            decreases height - x,
        {
            let ghost before = out@;
            out.append(goto(origin_y, origin_x + x).as_str());
            out.append("┃");
            out.append(goto(origin_y + width - 1, origin_x + x).as_str());
            out.append("┃");
            proof {
                let shorter = Seq::new(
                    (x - 1) as nat,
                    |k: int| side_text(origin_x, origin_y, width, k + 1),
                );
                let longer = Seq::new(
                    x as nat,
                    |k: int| side_text(origin_x, origin_y, width, k + 1),
                );
                assert(longer.drop_last() =~= shorter);
                assert(longer.last() == side_text(origin_x, origin_y, width, x as int));
                assert(join(longer, Seq::empty()) =~= join(shorter, Seq::empty())
                    + longer.last());
                assert(out@ =~= before + side_text(origin_x, origin_y, width, x as int));
                assert(out@ =~= head + sides_text(origin_x, origin_y, width, x as nat));
            }
            x += 1;
        }
        out.append(goto(origin_y, origin_x + height - 1).as_str());
        out.append("┗");
        out.append(edge.as_str());
        out.append("┛");
        proof {
            assert(out@ =~= box_text(origin_x, origin_y, height, width));
        }
        out
    }

    /// The shapes of the first `count` cells of row `row`, one after the
    /// other.
    pub open spec fn shapes(&self, row: int, count: nat) -> Seq<char> {
        join(Seq::new(count, |c: int| pretty_text(self.game().shown(row, c))), Seq::empty())
    }

    /// The cells of row `row` behind the sequence that moves the cursor to
    /// the first of them.
    pub open spec fn row_text(&self, row: int) -> Seq<char> {
        goto_code((GRID_OFFSET.1 + 1) as u16, (GRID_OFFSET.0 + 1 + row) as u16) + self.shapes(
            row,
            self.game().board().width(),
        )
    }

    /// The first `count` rows of the board.
    pub open spec fn rows_text(&self, count: nat) -> Seq<char> {
        join(Seq::new(count, |r: int| self.row_text(r)), Seq::empty())
    }

    /// The two lines over the board: the title, and how many cells are
    /// flagged of how many bombs, with a hint once the two numbers agree.
    pub open spec fn header_text(&self) -> Seq<char> {
        let num_flags = self.game().flagged().len();
        let num_bombs = self.game().layout().bomb_total();
        clear_all_code() + goto_code(1, 1) + background_code(Colour::White) + foreground_code(
            Colour::Black,
        ) + " *  MINESWEEPER ¶ "@ + background_code(Colour::Reset) + foreground_code(
            Colour::Reset,
        ) + seq!['\r', '\n'] + "Flagged bombs: "@ + decimal(num_flags) + seq!['/'] + decimal(
            num_bombs,
        ) + seq![' '] + (if num_bombs == num_flags {
            "(Submit with 's')"@
        } else {
            Seq::empty()
        }) + seq!['\r', '\n']
    }

    /// The whole picture: the screen is cleared, then come the header, the
    /// time that has passed if there is one, the frame, the rows of the
    /// board, and the cursor as a blinking block where it stands.
    pub open spec fn frame_text(&self, elapsed: Option<Seq<char>>) -> Seq<char> {
        self.header_text() + (match elapsed {
            Some(time) => "Time: "@ + time,
            None => Seq::empty(),
        }) + box_text(
            GRID_OFFSET.0,
            GRID_OFFSET.1,
            (self.game().board().height() + 2) as u16,
            (self.game().board().width() + 2) as u16,
        ) + self.rows_text(self.game().board().height()) + goto_code(
            self.cursor_at().0,
            self.cursor_at().1,
        ) + blinking_block_code()
    }

    /// The text that draws the whole picture of the game on the terminal.
    /// `elapsed` is the time that has passed since the first move, as it is
    /// to be shown, if the clock runs.
    pub fn draw(&self, elapsed: Option<&str>) -> (out: String)
        requires
            self.wf(),
            GRID_OFFSET.0 + self.game().board().height() + 2 <= u16::MAX,
            GRID_OFFSET.1 + self.game().board().width() + 2 <= u16::MAX,
        ensures
            out@ == self.frame_text(
                match elapsed {
                    Some(time) => Some(time@),
                    None => None,
                },
            ),
    {
        let state = self.client.get_state();
        let (grid_h, grid_w) = state.shape();
        let flags = self.client.get_flag_locations();
        let num_flags = flags.len();
        let num_bombs = self.client.num_bombs();
        let cursor_pos = self.current_cursor;
        proof {
            flags@.unique_seq_to_set();
            reveal_strlit("\r\n");
            reveal_strlit("/");
            reveal_strlit(" ");
            assert("\r\n"@ =~= seq!['\r', '\n']);
            assert("/"@ =~= seq!['/']);
            assert(" "@ =~= seq![' ']);
        }
        let mut out = clear_all();
        out.append(goto(1, 1).as_str());
        out.append(background(Colour::White).as_str());
        out.append(foreground(Colour::Black).as_str());
        out.append(" *  MINESWEEPER ¶ ");
        out.append(background(Colour::Reset).as_str());
        out.append(foreground(Colour::Reset).as_str());
        out.append("\r\n");
        out.append("Flagged bombs: ");
        append_decimal(&mut out, num_flags);
        out.append("/");
        append_decimal(&mut out, num_bombs);
        out.append(" ");
        if num_bombs == num_flags {
            out.append("(Submit with 's')");
        }
        out.append("\r\n");
        assert(out@ =~= self.header_text());
        match elapsed {
            Some(time) => {
                out.append("Time: ");
                out.append(time);
            },
            None => {},
        }
        let box_h: u16 = (grid_h + 2) as u16;
        let box_w: u16 = (grid_w + 2) as u16;
        let frame = Self::draw_box(GRID_OFFSET.0, GRID_OFFSET.1, box_h, box_w);
        out.append(frame.as_str());
        let ghost head = out@;
        assert(out@ =~= head + self.rows_text(0));
        let mut i: usize = 0;
        while i < grid_h
            invariant
                self.wf(),
                *state == self.game().board(),
                grid_h == self.game().board().height(),
                grid_w == self.game().board().width(),
                GRID_OFFSET.0 + grid_h + 2 <= u16::MAX,
                i <= grid_h,
                out@ == head + self.rows_text(i as nat),
            decreases grid_h - i,
        {
            let first_cell_x: u16 = GRID_OFFSET.0 + 1 + (i as u16);
            let mut line = goto(GRID_OFFSET.1 + 1, first_cell_x);
            let ghost front = line@;
            assert(line@ =~= front + self.shapes(i as int, 0));
            let mut j: usize = 0;
            while j < grid_w
                invariant
                    self.wf(),
                    *state == self.game().board(),
                    grid_h == self.game().board().height(),
                    grid_w == self.game().board().width(),
                    i < grid_h,
                    j <= grid_w,
                    line@ == front + self.shapes(i as int, j as nat),
                decreases grid_w - j,
            {
                match state.get(i, j) {
                    Some(cell_state) => {
                        line.append(cellstate_to_prettystring(&cell_state).as_str());
                    },
                    None => {},
                }
                proof {
                    let shorter = Seq::new(
                        j as nat,
                        |c: int| pretty_text(self.game().shown(i as int, c)),
                    );
                    let longer = Seq::new(
                        (j + 1) as nat,
                        |c: int| pretty_text(self.game().shown(i as int, c)),
                    );
                    assert(longer.drop_last() =~= shorter);
                    assert(longer.last() == pretty_text(self.game().shown(i as int, j as int)));
                    assert(join(longer, Seq::empty()) =~= join(shorter, Seq::empty())
                        + longer.last());
                    assert(line@ =~= front + self.shapes(i as int, (j + 1) as nat));
                }
                j += 1;
            }
            out.append(line.as_str());
            proof {
                assert(line@ =~= self.row_text(i as int));
                let shorter = Seq::new(i as nat, |r: int| self.row_text(r));
                let longer = Seq::new((i + 1) as nat, |r: int| self.row_text(r));
                assert(longer.drop_last() =~= shorter);
                assert(longer.last() == self.row_text(i as int));
                assert(join(longer, Seq::empty()) =~= join(shorter, Seq::empty())
                    + longer.last());
                assert(out@ =~= head + self.rows_text((i + 1) as nat));
            }
            i += 1;
        }
        out.append(goto(cursor_pos.0, cursor_pos.1).as_str());
        out.append(blinking_block().as_str());
        proof {
            assert(out@ =~= self.frame_text(
                match elapsed {
                    Some(time) => Some(time@),
                    None => None,
                },
            ));
        }
        out
    }

    /// The text that says goodbye under the board: the screen is cleared from
    /// the second line under the frame on, and the sentence stands there.
    pub fn farewell(&self, request_exit: bool) -> (out: String)
        requires
            self.wf(),
            GRID_OFFSET.0 + self.game().board().height() + 3 <= u16::MAX,
        ensures
            out@ == goto_code(1, (self.game().board().height() + GRID_OFFSET.0 + 3) as u16)
                + clear_after_cursor_code() + goodbye_of(self.game().status(), request_exit)
                + seq!['\r', '\n'],
    {
        let (grid_h, grid_w) = self.client.get_state().shape();
        let next_free_line: u16 = (grid_h as u16) + GRID_OFFSET.0 + 3;
        let mut out = goto(1, next_free_line);
        out.append(clear_after_cursor().as_str());
        out.append(goodbye_sentence(self.client.get_game_state(), request_exit));
        proof {
            reveal_strlit("\r\n");
            assert("\r\n"@ =~= seq!['\r', '\n']);
        }
        out.append("\r\n");
        out
    }
}

} // verus!
