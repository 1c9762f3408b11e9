//! One cell of the puzzle: the blank, or a numbered tile.
use vstd::prelude::*;

verus! {

/// A tile on a board: either empty or a number from 1 to 8.
#[derive(Clone, Copy, Debug, PartialEq, Eq, Hash)]
pub struct Tile(u8);

impl View for Tile {
    type V = u8;

    /// The number on the tile, with 0 for the blank.
    closed spec fn view(&self) -> u8 {
        self.0
    }
}

impl Tile {
    /// A tile holds the blank or a number from 1 to 8.
    pub open spec fn wf(&self) -> bool {
        self@ <= 8
    }

    /// Creates a tile: the blank for `None`, otherwise the given number.
    pub fn new(maybe_value: Option<u8>) -> (t: Self)
        requires
            maybe_value matches Some(v) ==> 1 <= v <= 8,
        ensures
            t.wf(),
            t@ == match maybe_value {
                Some(v) => v,
                None => 0u8,
            },
    {
        match maybe_value {
            Some(v) => Tile(v),
            None => Tile(0),
        }
    }

    /// Creates an empty tile.
    pub fn empty() -> (t: Self)
        ensures
            t.wf(),
            t@ == 0,
    {
        Tile(0)
    }

    /// The number on the tile, or `None` for the blank.
    pub fn number(&self) -> (r: Option<u8>)
        ensures
            r == (if self@ == 0 { None } else { Some(self@) }),
    {
        if self.0 == 0 {
            None
        } else {
            Some(self.0)
        }
    }

    /// Whether the tile is the blank.
    pub fn is_empty(&self) -> (r: bool)
        ensures
            r == (self@ == 0),
    {
        self.0 == 0
    }

    /// The tile's value, 0 for the blank.
    pub(crate) fn value(&self) -> (v: u8)
        ensures
            v == self@,
    {
        self.0
    }
}

} // verus!
