use vstd::prelude::*;

verus! {

/// One of the two players' tokens.
#[derive(Clone, Copy, Debug, PartialEq, Eq, Structural)]
pub enum Marker {
    X,
    O,
}

impl Marker {
    /// The opposing player's marker.
    pub open spec fn other(self) -> Marker {
        match self {
            Marker::X => Marker::O,
            Marker::O => Marker::X,
        }
    }

    /// The character that shows this marker on a rendered board.
    pub open spec fn spec_symbol(self) -> char {
        match self {
            Marker::X => 'X',
            Marker::O => 'O',
        }
    }

    /// Returns the opposing player's marker.
    pub fn invert(&self) -> (r: Marker)
        ensures
            r == self.other(),
            r != *self,
    {
        match self {
            Marker::X => Marker::O,
            Marker::O => Marker::X,
        }
    }

    /// Returns the character that shows this marker.
    pub fn symbol(&self) -> (r: char)
        ensures
            r == self.spec_symbol(),
    {
        match self {
            Marker::X => 'X',
            Marker::O => 'O',
        }
    }
}

} // verus!
