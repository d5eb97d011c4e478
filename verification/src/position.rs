//! Source positions.
use vstd::prelude::*;
use vstd::string::*;
use crate::text::{decimal_chars, decimal_text, push_chars};

verus! {

/// A place in the source text: a line and a column, both counted from zero.
#[derive(Debug, Clone, Copy, PartialEq, Eq, Structural)]
pub struct Position {
    pub line: usize,
    pub chr: usize,
}

impl Position {
    /// The position at `line` and column `chr`.
    pub fn new(line: usize, chr: usize) -> (p: Position)
        ensures
            p == (Position { line, chr }),
    {
        Position { line, chr }
    }

    /// The text `<line>:<column>`, both in decimal digits.
    pub open spec fn rendering(self) -> Seq<char> {
        decimal_text(self.line as nat) + seq![':'] + decimal_text(self.chr as nat)
    }

    /// Renders the position as `<line>:<column>`.
    pub fn to_string(&self) -> (s: String)
        ensures
            s@ == self.rendering(),
    {
        let mut s = String::new();
        push_chars(&mut s, &decimal_chars(self.line));
        let mut colon: Vec<char> = Vec::new();
        colon.push(':');
        push_chars(&mut s, &colon);
        push_chars(&mut s, &decimal_chars(self.chr));
        assert(colon@ =~= seq![':']);
        assert(s@ =~= self.rendering());
        s
    }
}

impl Default for Position {
    fn default() -> (p: Position)
        ensures
            p == (Position { line: 0, chr: 0 }),
    {
        Position { line: 0, chr: 0 }
    }
}

} // verus!
