//! The line-oriented front end: what a typed command means, and the board as
//! plain text.

use crate::minefield::client::{CellState, Client, GameState};
use crate::minefield::field::Cell;
use crate::minefield::text::{append_decimal, decimal, join, Render};
use vstd::prelude::*;
use vstd::string::{StrSliceExecFns, StringExecFns};

verus! {

/// A game that is played by typing commands.
pub struct AsciiClient {
    pub client: Client,
}

/// What the player asks for.
#[derive(Copy, Clone, Debug, PartialEq, Eq, Structural)]
pub enum Command {
    /// Nothing that can be done: the input was not understood, or names a
    /// cell that the game does not have.
    Nothing,
    /// Leave the game.
    Exit,
    /// Uncover the cell in this row and column.
    Query(usize, usize),
    /// Flag the cell in this row and column, or take its flag off.
    Flag(usize, usize),
    /// End the game on the flags that are set.
    Submit,
}

/// The place of the letter `c` in the alphabet, counted from zero, whether
/// it is written large or small.
pub open spec fn letter_index(c: char) -> Option<usize> {
    if 'a' <= c && c <= 'z' {
        Some((c as int - 'a' as int) as usize)
    } else if 'A' <= c && c <= 'Z' {
        Some((c as int - 'A' as int) as usize)
    } else {
        None
    }
}

/// The value of the decimal digit `c`.
pub open spec fn digit_value(c: char) -> Option<usize> {
    if '0' <= c && c <= '9' {
        Some((c as int - '0' as int) as usize)
    } else {
        None
    }
}

/// The cell that a letter and a digit name: the letter is the column, the
/// digit the row.
pub open spec fn coordinate_of(col_char: char, row_char: char) -> Option<(usize, usize)> {
    match (letter_index(col_char), digit_value(row_char)) {
        (Some(col), Some(row)) => Some((row, col)),
        _ => None,
    }
}

/// The small form of a large letter, and any other character as it is.
pub open spec fn lower(c: char) -> char {
    if 'A' <= c && c <= 'Z' {
        ((c as int) + 32) as char
    } else {
        c
    }
}

fn letter_of(c: char) -> (index: Option<usize>)
    ensures
        index == letter_index(c),
{
    let code: u32 = c as u32;
    if 97 <= code && code <= 122 {
        Some((code - 97) as usize)
    } else if 65 <= code && code <= 90 {
        Some((code - 65) as usize)
    } else {
        None
    }
}

fn digit_of(c: char) -> (value: Option<usize>)
    ensures
        value == digit_value(c),
{
    let code: u32 = c as u32;
    if 48 <= code && code <= 57 {
        Some((code - 48) as usize)
    } else {
        None
    }
}

/// What a typed line means. Large and small letters count alike, and a line
/// with a character outside ASCII means nothing.
///
/// `q` leaves and `s` submits. A letter and a digit uncover the cell in that
/// column and row, also with `d` before them; with `f` before them they
/// flag it.
pub open spec fn command_of(input: Seq<char>) -> Command {
    if !vstd::utf8::is_ascii_chars(input) {
        Command::Nothing
    } else if input.len() == 1 {
        if lower(input[0]) == 'q' {
            Command::Exit
        } else if lower(input[0]) == 's' {
            Command::Submit
        } else {
            Command::Nothing
        }
    } else if input.len() == 2 {
        match coordinate_of(input[0], input[1]) {
            Some((row, col)) => Command::Query(row, col),
            None => Command::Nothing,
        }
    } else if input.len() == 3 {
        match coordinate_of(input[1], input[2]) {
            Some((row, col)) => if lower(input[0]) == 'f' {
                Command::Flag(row, col)
            } else if lower(input[0]) == 'd' {
                Command::Query(row, col)
            } else {
                Command::Nothing
            },
            None => Command::Nothing,
        }
    } else {
        Command::Nothing
    }
}

impl AsciiClient {
    /// Keeps a command that names a cell only if the game has that cell.
    pub fn check_coordinates(&self, c: Command) -> (checked: Command)
        requires
            self.client.wf(),
        ensures
            checked == match c {
                Command::Query(i, j) | Command::Flag(i, j) => if self.client.has(
                    i as int,
                    j as int,
                ) {
                    c
                } else {
                    Command::Nothing
                },
                other => other,
            },
    {
        match c {
            Command::Query(i, j) | Command::Flag(i, j) => {
                if self.client.get_state().index(i, j).is_some() {
                    c
                } else {
                    Command::Nothing
                }
            },
            other => other,
        }
    }

    /// The cell that the first two characters of `input` name: a letter for
    /// the column, then a digit for the row.
    pub fn parse_coordinate(input: &str) -> (cell: Option<(usize, usize)>)
        requires
            input@.len() >= 1,
            letter_index(input@[0]) is Some ==> input@.len() >= 2,
        ensures
            cell == if input@.len() >= 2 {
                coordinate_of(input@[0], input@[1])
            } else {
                None
            },
    {
        let col = match letter_of(input.get_char(0)) {
            Some(col) => col,
            None => {
                return None;
            },
        };
        match digit_of(input.get_char(1)) {
            Some(row) => Some((row, col)),
            None => None,
        }
    }

    /// What the typed line `input` means.
    pub fn parse_input(input: &str) -> (command: Command)
        ensures
            command == command_of(input@),
    {
        if !input.is_ascii() {
            return Command::Nothing;
        }
        let length: usize = input.unicode_len();
        if length == 1 {
            let first: u32 = input.get_char(0) as u32;
            if first == 113 || first == 81 {
                Command::Exit
            } else if first == 115 || first == 83 {
                Command::Submit
            } else {
                Command::Nothing
            }
        } else if length == 2 {
            match Self::parse_coordinate(input) {
                Some((row, col)) => Command::Query(row, col),
                None => Command::Nothing,
            }
        } else if length == 3 {
            let first: u32 = input.get_char(0) as u32;
            let rest = input.substring_ascii(1, 3);
            assert(rest@[0] == input@[1] && rest@[1] == input@[2]);
            match Self::parse_coordinate(rest) {
                Some((row, col)) => {
                    if first == 102 || first == 70 {
                        Command::Flag(row, col)
                    } else if first == 100 || first == 68 {
                        Command::Query(row, col)
                    } else {
                        Command::Nothing
                    }
                },
                None => Command::Nothing,
            }
        } else {
            Command::Nothing
        }
    }
}

/// How a cell looks on the board: a block while it is hidden, a lighter
/// block under a flag, `*` for a bomb, a blank where no bomb is around, and
/// else the number of bombs around.
pub open spec fn mono_text(c: CellState) -> Seq<char> {
    match c {
        CellState::Hidden => seq!['█'],
        CellState::Flagged => seq!['▓'],
        CellState::Revealed(Cell::Bomb) => seq!['*'],
        CellState::Revealed(Cell::Clean(n)) => if n == 0 {
            seq![' ']
        } else {
            decimal(n as nat)
        },
        CellState::Marked => seq!['▟'],
    }
}

/// How a cell looks on the board.
pub fn to_char_mono(c: &CellState) -> (shape: String)
    ensures
        shape@ == mono_text(*c),
{
    proof {
        reveal_strlit("█");
        reveal_strlit("▓");
        reveal_strlit("*");
        reveal_strlit(" ");
        reveal_strlit("▟");
    }
    match c {
        CellState::Hidden => {
            assert("█"@ =~= seq!['█']);
            String::from_str("█")
        },
        CellState::Flagged => {
            assert("▓"@ =~= seq!['▓']);
            String::from_str("▓")
        },
        CellState::Revealed(r) => match r {
            Cell::Bomb => {
                assert("*"@ =~= seq!['*']);
                String::from_str("*")
            },
            Cell::Clean(n) => {
                if *n == 0 {
                    assert(" "@ =~= seq![' ']);
                    String::from_str(" ")
                } else {
                    let mut shape = String::new();
                    append_decimal(&mut shape, *n as usize);
                    assert(shape@ =~= decimal(*n as nat));
                    shape
                }
            },
        },
        CellState::Marked => {
            assert("▟"@ =~= seq!['▟']);
            String::from_str("▟")
        },
    }
}

impl Render for CellState {
    open spec fn text(&self) -> Seq<char> {
        mono_text(*self)
    }

    fn render(&self, out: &mut String) {
        let shape = to_char_mono(self);
        out.append(shape.as_str());
    }
}

/// The name of a state of the game.
pub open spec fn state_name(state: GameState) -> Seq<char> {
    match state {
        GameState::Running => "Running"@,
        GameState::Lost => "Lost"@,
        GameState::Won => "Won"@,
    }
}

/// The number `n` as it stands before a row of the board: at least two
/// characters wide, with a blank before a single digit.
pub open spec fn padded(n: nat) -> Seq<char> {
    if n < 10 {
        seq![' '] + decimal(n)
    } else {
        decimal(n)
    }
}

/// `count` times the character `c`.
pub open spec fn repeated(c: char, count: nat) -> Seq<char> {
    Seq::new(count, |k: int| c)
}

impl AsciiClient {
    /// Whether this front end is `before` after the command `command`: the
    /// named cell is flooded or flagged, the flags are submitted, or the
    /// game is left alone.
    pub open spec fn is_turn_of(&self, before: AsciiClient, command: Command) -> bool {
        match command {
            Command::Query(row, col) => self.client.is_flood_of(before.client, row, col),
            Command::Flag(row, col) => self.client.is_flag_of(before.client, row, col),
            Command::Submit => self.client.is_submission_of(before.client),
            _ => self.client == before.client,
        }
    }

    /// Does to the game what `command` asks. Returns whether the player
    /// stays, which is the case unless the command is to leave.
    pub fn perform(&mut self, command: Command) -> (stays: bool)
        requires
            old(self).client.wf(),
            command matches Command::Query(row, col) ==> old(self).client.has(
                row as int,
                col as int,
            ),
            command matches Command::Flag(row, col) ==> old(self).client.has(
                row as int,
                col as int,
            ),
            command == Command::Submit ==> old(self).client.status() == GameState::Running,
        ensures
            final(self).client.wf(),
            final(self).is_turn_of(*old(self), command),
            stays == (command != Command::Exit),
    {
        match command {
            Command::Exit => false,
            Command::Query(row, col) => {
                let running = self.client.query_smart(row, col);
                true
            },
            Command::Submit => {
                let verdict = self.client.submit();
                true
            },
            Command::Flag(row, col) => {
                let flagged = self.client.flag(row, col);
                true
            },
            Command::Nothing => true,
        }
    }

    /// The shapes of the first `count` cells of row `row`, one after the
    /// other.
    pub open spec fn shapes(&self, row: int, count: nat) -> Seq<char> {
        join(Seq::new(count, |c: int| mono_text(self.client.shown(row, c))), Seq::empty())
    }

    /// The line of row `row`: its number, and its cells between two bars.
    pub open spec fn row_line(&self, row: int) -> Seq<char> {
        padded(row as nat) + seq!['┃'] + self.shapes(row, self.client.board().width()) + seq![
            '┃',
            '\n',
        ]
    }

    /// The lines of the first `count` rows.
    pub open spec fn row_lines(&self, count: nat) -> Seq<char> {
        join(Seq::new(count, |r: int| self.row_line(r)), Seq::empty())
    }

    /// The board as text: how the game stands, a letter over each column, and
    /// the numbered rows in a frame.
    pub open spec fn board_text(&self) -> Seq<char> {
        let width = self.client.board().width();
        "state: "@ + state_name(self.client.status()) + seq!['\n'] + seq![' ', ' ', ' ']
            + "abcdefghijklmnopqrstuvwxyz"@.take(width as int) + seq![' ', '\n'] + seq![
            ' ',
            ' ',
            '┏',
        ] + repeated('━', width) + seq!['┓', '\n'] + self.row_lines(self.client.board().height())
            + seq![' ', ' ', '┗'] + repeated('━', width) + seq!['┛', '\n']
    }

    /// The board as text. There are letters for twenty-six columns and no
    /// more.
    pub fn to_string(&self) -> (out: String)
        requires
            self.client.wf(),
            self.client.board().width() <= 26,
        ensures
            out@ == self.board_text(),
    {
        let state = self.client.get_state();
        let (h, w) = state.shape();
        let alphabet = "abcdefghijklmnopqrstuvwxyz";
        proof {
            reveal_strlit("abcdefghijklmnopqrstuvwxyz");
            reveal_strlit("   ");
            reveal_strlit(" \n");
            reveal_strlit("  ┏");
            reveal_strlit("┓\n");
            reveal_strlit("  ┗");
            reveal_strlit("┛\n");
            reveal_strlit("\n");
            assert("   "@ =~= seq![' ', ' ', ' ']);
            assert(" \n"@ =~= seq![' ', '\n']);
            assert("  ┏"@ =~= seq![' ', ' ', '┏']);
            assert("┓\n"@ =~= seq!['┓', '\n']);
            assert("  ┗"@ =~= seq![' ', ' ', '┗']);
            assert("┛\n"@ =~= seq!['┛', '\n']);
            assert("\n"@ =~= seq!['\n']);
            assert(alphabet.is_ascii());
        }
        let mut out = String::from_str("state: ");
        match self.client.get_game_state() {
            GameState::Running => out.append("Running"),
            GameState::Lost => out.append("Lost"),
            GameState::Won => out.append("Won"),
        }
        out.append("\n");
        out.append("   ");
        out.append(alphabet.substring_ascii(0, w));
        out.append(" \n");
        let bar = Self::bar(w);
        out.append("  ┏");
        out.append(bar.as_str());
        out.append("┓\n");
        let ghost head = out@;
        let mut i: usize = 0;
        assert(out@ =~= head + self.row_lines(0));
        while i < h
            invariant
                self.client.wf(),
                *state == self.client.board(),
                h == self.client.board().height(),
                w == self.client.board().width(),
                i <= h,
                out@ == head + self.row_lines(i as nat),
            decreases h - i,
        {
            let mut line = String::new();
            if i < 10 {
                proof {
                    reveal_strlit(" ");
                    assert(" "@ =~= seq![' ']);
                }
                line.append(" ");
            }
            append_decimal(&mut line, i);
            proof {
                reveal_strlit("┃");
                assert("┃"@ =~= seq!['┃']);
            }
            line.append("┃");
            let ghost front = line@;
            assert(front =~= padded(i as nat) + seq!['┃']);
            let mut j: usize = 0;
            assert(line@ =~= front + self.shapes(i as int, 0));
            while j < w
                invariant
                    self.client.wf(),
                    *state == self.client.board(),
                    h == self.client.board().height(),
                    w == self.client.board().width(),
                    i < h,
                    j <= w,
                    line@ == front + self.shapes(i as int, j as nat),
                decreases w - j,
            {
                match state.get(i, j) {
                    Some(cell_state) => cell_state.render(&mut line),
                    None => {},
                }
                proof {
                    let shorter = Seq::new(
                        j as nat,
                        |c: int| mono_text(self.client.shown(i as int, c)),
                    );
                    let longer = Seq::new(
                        (j + 1) as nat,
                        |c: int| mono_text(self.client.shown(i as int, c)),
                    );
                    assert(longer.drop_last() =~= shorter);
                    assert(longer.last() == mono_text(self.client.shown(i as int, j as int)));
                    assert(join(longer, Seq::empty()) =~= join(shorter, Seq::empty())
                        + longer.last());
                    assert(line@ =~= front + self.shapes(i as int, (j + 1) as nat));
                }
                j += 1;
            }
            proof {
                reveal_strlit("┃\n");
                assert("┃\n"@ =~= seq!['┃', '\n']);
            }
            line.append("┃\n");
            out.append(line.as_str());
            proof {
                assert(line@ =~= self.row_line(i as int));
                let shorter = Seq::new(i as nat, |r: int| self.row_line(r));
                let longer = Seq::new((i + 1) as nat, |r: int| self.row_line(r));
                assert(longer.drop_last() =~= shorter);
                assert(longer.last() == self.row_line(i as int));
                assert(join(longer, Seq::empty()) =~= join(shorter, Seq::empty())
                    + longer.last());
                assert(out@ =~= head + self.row_lines((i + 1) as nat));
            }
            i += 1;
        }
        out.append("  ┗");
        out.append(bar.as_str());
        out.append("┛\n");
        proof {
            assert(out@ =~= self.board_text());
        }
        out
    }

    /// A horizontal bar over `width` columns.
    fn bar(width: usize) -> (line: String)
        ensures
            line@ == repeated('━', width as nat),
    {
        let mut line = String::new();
        let mut k: usize = 0;
        proof {
            reveal_strlit("━");
            assert("━"@ =~= seq!['━']);
        }
        assert(line@ =~= repeated('━', 0));
        while k < width
            invariant
                k <= width,
                line@ == repeated('━', k as nat),
                "━"@ == seq!['━'],
            decreases width - k,
        {
            line.append("━");
            assert(line@ =~= repeated('━', (k + 1) as nat));
            k += 1;
        }
        line
    }
}

} // verus!
