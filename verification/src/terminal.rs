//! The escape sequences that steer the terminal, taken from the `termion`
//! crate. What each of them is made of is believed as stated here and not
//! proved.

use crate::minefield::text::decimal;
use termion::color;
use vstd::prelude::*;

verus! {

/// The colours that the board is painted with, and `Reset` for the
/// terminal's own colour.
#[derive(Debug, Clone, Copy, PartialEq, Eq, Structural)]
pub enum Colour {
    Black,
    Red,
    Green,
    Blue,
    Magenta,
    Cyan,
    White,
    LightGreen,
    Reset,
}

/// The number of a colour in the terminal's palette. `Reset` is no colour of
/// the palette; zero stands for it here and is never written.
pub open spec fn palette_number(colour: Colour) -> nat {
    match colour {
        Colour::Black => 0,
        Colour::Red => 1,
        Colour::Green => 2,
        Colour::Blue => 4,
        Colour::Magenta => 5,
        Colour::Cyan => 6,
        Colour::White => 7,
        Colour::LightGreen => 10,
        Colour::Reset => 0,
    }
}

/// The sequence that sets the colour of the text.
pub open spec fn foreground_code(colour: Colour) -> Seq<char> {
    if colour == Colour::Reset {
        seq!['\x1b', '[', '3', '9', 'm']
    } else {
        seq!['\x1b', '[', '3', '8', ';', '5', ';'] + decimal(palette_number(colour)) + seq!['m']
    }
}

/// The sequence that sets the colour behind the text.
pub open spec fn background_code(colour: Colour) -> Seq<char> {
    if colour == Colour::Reset {
        seq!['\x1b', '[', '4', '9', 'm']
    } else {
        seq!['\x1b', '[', '4', '8', ';', '5', ';'] + decimal(palette_number(colour)) + seq!['m']
    }
}

/// The sequence that moves the cursor to column `x` of line `y`, both
/// counted from one.
pub open spec fn goto_code(x: u16, y: u16) -> Seq<char> {
    seq!['\x1b', '['] + decimal(y as nat) + seq![';'] + decimal(x as nat) + seq!['H']
}

/// The sequence that clears the whole screen.
pub open spec fn clear_all_code() -> Seq<char> {
    seq!['\x1b', '[', '2', 'J']
}

/// The sequence that clears the screen from the cursor on.
pub open spec fn clear_after_cursor_code() -> Seq<char> {
    seq!['\x1b', '[', 'J']
}

/// The sequence that makes the cursor a blinking block.
pub open spec fn blinking_block_code() -> Seq<char> {
    seq!['\x1b', '[', '1', ' ', 'q']
}

/// Formats `termion::color::Fg` of the `termion` colour of the same name.
/// Believed: the text is `ESC [ 3 8 ; 5 ;`, the colour's palette number and
/// `m`, and for `Reset` it is `ESC [ 3 9 m`.
#[verifier::external_body]
pub(crate) fn foreground(colour: Colour) -> (code: String)
    ensures
        code@ == foreground_code(colour),
{
    let paint: &dyn color::Color = match colour {
        Colour::Black => &color::Black,
        Colour::Red => &color::Red,
        Colour::Green => &color::Green,
        Colour::Blue => &color::Blue,
        Colour::Magenta => &color::Magenta,
        Colour::Cyan => &color::Cyan,
        Colour::White => &color::White,
        Colour::LightGreen => &color::LightGreen,
        Colour::Reset => &color::Reset,
    };
    format!("{}", color::Fg(paint))
}

/// Formats `termion::color::Bg` of the `termion` colour of the same name.
/// Believed: the text is `ESC [ 4 8 ; 5 ;`, the colour's palette number and
/// `m`, and for `Reset` it is `ESC [ 4 9 m`.
#[verifier::external_body]
pub(crate) fn background(colour: Colour) -> (code: String)
    ensures
        code@ == background_code(colour),
{
    let paint: &dyn color::Color = match colour {
        Colour::Black => &color::Black,
        Colour::Red => &color::Red,
        Colour::Green => &color::Green,
        Colour::Blue => &color::Blue,
        Colour::Magenta => &color::Magenta,
        Colour::Cyan => &color::Cyan,
        Colour::White => &color::White,
        Colour::LightGreen => &color::LightGreen,
        Colour::Reset => &color::Reset,
    };
    format!("{}", color::Bg(paint))
}

/// Formats `termion::cursor::Goto(x, y)`, which refuses the position
/// `(0, 0)` in a debug build. Believed: the text is `ESC [`, the decimal
/// numeral of `y`, `;`, the decimal numeral of `x`, and `H`.
#[verifier::external_body]
pub(crate) fn goto(x: u16, y: u16) -> (code: String)
    requires
        x != 0 || y != 0,
    ensures
        code@ == goto_code(x, y),
{
    format!("{}", termion::cursor::Goto(x, y))
}

/// Formats `termion::clear::All`. Believed: the text is `ESC [ 2 J`.
#[verifier::external_body]
pub(crate) fn clear_all() -> (code: String)
    ensures
        code@ == clear_all_code(),
{
    format!("{}", termion::clear::All)
}

/// Formats `termion::clear::AfterCursor`. Believed: the text is `ESC [ J`.
#[verifier::external_body]
pub(crate) fn clear_after_cursor() -> (code: String)
    ensures
        code@ == clear_after_cursor_code(),
{
    format!("{}", termion::clear::AfterCursor)
}

/// Formats `termion::cursor::BlinkingBlock`. Believed: the text is `ESC [`,
/// the digit one, a blank and `q`.
#[verifier::external_body]
pub(crate) fn blinking_block() -> (code: String)
    ensures
        code@ == blinking_block_code(),
{
    format!("{}", termion::cursor::BlinkingBlock)
}

} // verus!
