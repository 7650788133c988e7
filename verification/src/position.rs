//! Places in a source text.

use vstd::prelude::*;

verus! {

/// A place in a source text: line and column count from 1, `offset` counts
/// the bytes of the UTF-8 text that lie before the place.
#[derive(Clone, Copy, Debug, PartialEq, Eq, Structural)]
pub struct Position {
    pub line: usize,
    pub column: usize,
    pub offset: usize,
}

/// A place as three mathematical integers: the view of a [`Position`].
pub struct Location {
    pub line: int,
    pub column: int,
    pub offset: int,
}

impl Location {
    /// The place of the first character of any text.
    pub open spec fn origin() -> Location {
        Location { line: 1, column: 1, offset: 0 }
    }

    /// The place reached by moving `width` bytes to the right on the same line.
    pub open spec fn shift(self, width: int) -> Location {
        Location { line: self.line, column: self.column + width, offset: self.offset + width }
    }

    /// The first column of the next line, at the same offset.
    pub open spec fn next_line(self) -> Location {
        Location { line: self.line + 1, column: 1, offset: self.offset }
    }
}

impl View for Position {
    type V = Location;

    open spec fn view(&self) -> Location {
        Location { line: self.line as int, column: self.column as int, offset: self.offset as int }
    }
}

impl Position {
    /// The place of the first character of any text: line 1, column 1, offset 0.
    pub fn new() -> (p: Self)
        ensures
            p@ == Location::origin(),
    {
        Position { line: 1, column: 1, offset: 0 }
    }
}

} // verus!
