//! Tile states of the grid.

use vstd::prelude::*;

verus! {

/// The state of one grid cell.
///
/// `Empty` is the solid, uncarved state every cell starts in. `Floor` marks a
/// room interior, `Corridor` a carved connecting path. `Wall` is a purely
/// decorative border state: the wall pass turns an `Empty` cell into `Wall`
/// when it touches a `Floor` or `Corridor` cell.
#[derive(Clone, Copy, PartialEq, Eq, Structural, Debug)]
pub enum Tile {
    Empty,
    Floor,
    Corridor,
    Wall,
}

impl Tile {
    /// A cell can be walked through exactly when it is floor or corridor.
    pub open spec fn is_passable(self) -> bool {
        self == Tile::Floor || self == Tile::Corridor
    }

    /// The stable integer code of each tile state, used by the CSV export.
    pub open spec fn spec_code(self) -> u8 {
        match self {
            Tile::Empty => 0,
            Tile::Floor => 1,
            Tile::Corridor => 2,
            Tile::Wall => 3,
        }
    }

    /// The fixed glyph of each tile state, used by the text rendering.
    pub open spec fn spec_glyph(self) -> char {
        match self {
            Tile::Empty => '0',
            Tile::Floor => '1',
            Tile::Corridor => '2',
            Tile::Wall => '3',
        }
    }

    /// Executable passability test.
    pub fn is_passable_tile(self) -> (r: bool)
        ensures
            r == self.is_passable(),
    {
        match self {
            Tile::Floor => true,
            Tile::Corridor => true,
            Tile::Empty => false,
            Tile::Wall => false,
        }
    }

    pub fn code(self) -> (c: u8)
        ensures
            c == self.spec_code(),
    {
        match self {
            Tile::Empty => 0,
            Tile::Floor => 1,
            Tile::Corridor => 2,
            Tile::Wall => 3,
        }
    }

    /// The glyph of this tile, as a one-character string slice.
    pub fn glyph(self) -> (s: &'static str)
        ensures
            s@ =~= seq![self.spec_glyph()],
    {
        proof {
            reveal_strlit("0");
            reveal_strlit("1");
            reveal_strlit("2");
            reveal_strlit("3");
        }
        match self {
            Tile::Empty => "0",
            Tile::Floor => "1",
            Tile::Corridor => "2",
            Tile::Wall => "3",
        }
    }
}

} // verus!
