//! The colors of the palette and the terminal escape codes that select them.

use vstd::prelude::*;

verus! {

/// A color of the eight-color terminal palette, or the reset of all
/// attributes.
#[derive(Clone, Copy, Debug, PartialEq, Eq, Structural)]
pub enum ANSIColor {
    Black,
    Red,
    Green,
    Yellow,
    Blue,
    Magenta,
    Cyan,
    White,
    Reset,
}

/// The escape sequence `ESC [ 0 ; parameter m`: it clears the attributes in
/// force and then applies `parameter`.
pub open spec fn escape_sequence(parameter: Seq<char>) -> Seq<char> {
    seq!['\u{1b}', '[', '0', ';'] + parameter + seq!['m']
}

impl ANSIColor {
    /// The parameter that selects the color: `30` to `37` for the eight
    /// foreground colors in palette order, `0` for the reset.
    pub open spec fn parameter(self) -> Seq<char> {
        match self {
            ANSIColor::Black => seq!['3', '0'],
            ANSIColor::Red => seq!['3', '1'],
            ANSIColor::Green => seq!['3', '2'],
            ANSIColor::Yellow => seq!['3', '3'],
            ANSIColor::Blue => seq!['3', '4'],
            ANSIColor::Magenta => seq!['3', '5'],
            ANSIColor::Cyan => seq!['3', '6'],
            ANSIColor::White => seq!['3', '7'],
            ANSIColor::Reset => seq!['0'],
        }
    }

    /// The escape sequence that switches the terminal to this color.
    pub open spec fn code(self) -> Seq<char> {
        escape_sequence(self.parameter())
    }

    /// The escape sequence that switches the terminal to this color.
    pub fn as_string(&self) -> (code: &str)
        ensures
            code@ == self.code(),
    {
        proof {
            reveal_strlit("\u{001B}[0;30m");
            reveal_strlit("\u{001B}[0;31m");
            reveal_strlit("\u{001B}[0;32m");
            reveal_strlit("\u{001B}[0;33m");
            reveal_strlit("\u{001B}[0;34m");
            reveal_strlit("\u{001B}[0;35m");
            reveal_strlit("\u{001B}[0;36m");
            reveal_strlit("\u{001B}[0;37m");
            reveal_strlit("\u{001B}[0;0m");
        }
        let code = match *self {
            ANSIColor::Black => "\u{001B}[0;30m",
            ANSIColor::Red => "\u{001B}[0;31m",
            ANSIColor::Green => "\u{001B}[0;32m",
            ANSIColor::Yellow => "\u{001B}[0;33m",
            ANSIColor::Blue => "\u{001B}[0;34m",
            ANSIColor::Magenta => "\u{001B}[0;35m",
            ANSIColor::Cyan => "\u{001B}[0;36m",
            ANSIColor::White => "\u{001B}[0;37m",
            ANSIColor::Reset => "\u{001B}[0;0m",
        };
        assert(code@ =~= self.code());
        code
    }
}

/// `text` in the given color: the color's code, the text, and the reset.
pub open spec fn painted(color: ANSIColor, text: Seq<char>) -> Seq<char> {
    color.code() + text + ANSIColor::Reset.code()
}

} // verus!
