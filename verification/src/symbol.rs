//! The three marks a tic-tac-toe cell can hold.

use vstd::prelude::*;

verus! {

/// A cell content: one of the two players' pieces, or empty.
#[derive(Clone, Copy, Debug, PartialEq, Eq, Structural)]
pub enum Symbol {
    X,
    O,
    Empty,
}

/// The character a symbol is written as in a flattened board state.
pub open spec fn char_of_symbol(s: Symbol) -> char {
    match s {
        Symbol::X => 'X',
        Symbol::O => 'O',
        Symbol::Empty => '-',
    }
}

/// The symbol a character denotes; anything unrecognised reads as empty.
pub open spec fn symbol_of_char(c: char) -> Symbol {
    if c == 'X' {
        Symbol::X
    } else if c == 'O' {
        Symbol::O
    } else {
        Symbol::Empty
    }
}

impl Symbol {
    /// The character this symbol is written as.
    pub fn as_char(&self) -> (c: char)
        ensures
            c == char_of_symbol(*self),
    {
        match self {
            Symbol::X => 'X',
            Symbol::O => 'O',
            Symbol::Empty => '-',
        }
    }

    /// The symbol a character denotes; anything unrecognised reads as empty.
    pub fn from_char(c: char) -> (s: Symbol)
        ensures
            s == symbol_of_char(c),
    {
        if c == 'X' {
            Symbol::X
        } else if c == 'O' {
            Symbol::O
        } else {
            Symbol::Empty
        }
    }
}

} // verus!
