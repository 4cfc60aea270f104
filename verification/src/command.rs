//! The eight instructions and how each is spelled in source text.

use vstd::prelude::*;

verus! {

/// One instruction of the tape machine.
#[derive(Debug, Clone, Copy, PartialEq, Eq, Structural)]
pub enum Command {
    /// Increment the current cell.
    Add,
    /// Decrement the current cell.
    Sub,
    /// Read one byte into the current cell.
    Input,
    /// Write the current cell.
    Output,
    /// Move the pointer one cell down.
    Left,
    /// Move the pointer one cell up.
    Right,
    /// Open a repeated block.
    Loop,
    /// Close a repeated block.
    Pool,
}

/// U+2764, the first code point of `Left`.
pub const HEART: char = '\u{2764}';

/// U+FE0F, the second code point of `Left`.
pub const SELECTOR: char = '\u{fe0f}';

/// U+1F496, the spelling of `Right`.
pub const SPARKLING_HEART: char = '\u{1f496}';

/// U+1F449, the first code point of `Add`.
pub const POINT_RIGHT: char = '\u{1f449}';

/// U+1F448, the second code point of `Add`.
pub const POINT_LEFT: char = '\u{1f448}';

/// U+1F97A, the spelling of `Sub`.
pub const PLEADING: char = '\u{1f97a}';

/// U+002C, the spelling of `Input`.
pub const COMMA: char = ',';

/// U+002E, the spelling of `Output`.
pub const STOP: char = '.';

/// U+1FAC2, the spelling of `Loop`.
pub const HUG: char = '\u{1fac2}';

/// U+2728, the spelling of `Pool`.
pub const SPARKLES: char = '\u{2728}';

impl Command {
    /// The code points that spell this instruction.
    pub open spec fn lexeme(self) -> Seq<char> {
        match self {
            Command::Left => seq![HEART, SELECTOR],
            Command::Right => seq![SPARKLING_HEART],
            Command::Add => seq![POINT_RIGHT, POINT_LEFT],
            Command::Sub => seq![PLEADING],
            Command::Input => seq![COMMA],
            Command::Output => seq![STOP],
            Command::Loop => seq![HUG],
            Command::Pool => seq![SPARKLES],
        }
    }
}

} // verus!
