//! The marble colors that occupy board cells.

use vstd::prelude::*;

verus! {

/// Pieces that go on the board: a small fixed set of colors.
#[derive(Clone, Copy, PartialEq, Eq, Structural, Hash, Debug)]
pub enum Marble {
    Red,
    Green,
    Blue,
    Yellow,
    Cyan,
    Purple,
    Pink,
}

impl Marble {
    /// Position of this color in the fixed rotation.
    pub open spec fn spec_index(self) -> int {
        match self {
            Marble::Red => 0,
            Marble::Green => 1,
            Marble::Blue => 2,
            Marble::Yellow => 3,
            Marble::Cyan => 4,
            Marble::Purple => 5,
            Marble::Pink => 6,
        }
    }

    pub fn from_index(i: usize) -> (m: Marble)
        requires
            i < 7,
        ensures
            m.spec_index() == i,
    {
        match i {
            0 => Marble::Red,
            1 => Marble::Green,
            2 => Marble::Blue,
            3 => Marble::Yellow,
            4 => Marble::Cyan,
            5 => Marble::Purple,
            _ => Marble::Pink,
        }
    }

    /// Make a random marble among the first `max` colors.  The pool is capped
    /// at six, so the seventh color never spawns on its own.
    pub fn random(max: usize) -> (m: Marble)
        requires
            1 <= max,
        ensures
            m.spec_index() < if max < 6 { max as int } else { 6 },
    {
        let bound = if max < 6 { max } else { 6 };
        let i = crate::rng::random_below(bound);
        Marble::from_index(i)
    }

    /// The next color in a fixed rotation; never the color itself.  Used to
    /// retry a placement that the random draw made immediately clearable.
    pub fn another(&self) -> (m: Marble)
        ensures
            m.spec_index() == (self.spec_index() + 1) % 7,
            m != *self,
    {
        match self {
            Marble::Red => Marble::Green,
            Marble::Green => Marble::Blue,
            Marble::Blue => Marble::Yellow,
            Marble::Yellow => Marble::Cyan,
            Marble::Cyan => Marble::Purple,
            Marble::Purple => Marble::Pink,
            Marble::Pink => Marble::Red,
        }
    }
}

} // verus!
