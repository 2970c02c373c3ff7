//! Axis-aligned room rectangles.

use vstd::prelude::*;

verus! {

/// The spacing, in tiles, that room placement keeps between a room and both
/// the board border and every other room's rectangle.
pub const ROOM_MARGIN: i32 = 1;

/// An axis-aligned rectangle of floor tiles: top-left corner `(x, y)`,
/// extending `width` tiles right and `height` tiles down.
#[derive(Clone, Copy, PartialEq, Eq, Structural, Debug)]
pub struct Room {
    pub x: i32,
    pub y: i32,
    pub width: i32,
    pub height: i32,
}

impl Room {
    /// A room has positive extent on both axes.
    pub open spec fn wf(self) -> bool {
        0 < self.width && 0 < self.height
    }

    /// The cell `(px, py)` lies inside this room.
    pub open spec fn contains(self, px: int, py: int) -> bool {
        self.x <= px < self.x + self.width && self.y <= py < self.y + self.height
    }

    /// The whole room lies inside a `w` by `h` board.
    pub open spec fn contained_in(self, w: int, h: int) -> bool {
        0 <= self.x && 0 <= self.y && self.x + self.width <= w && self.y + self.height <= h
    }

    /// The whole room lies inside the board and keeps at least `m` tiles of
    /// spacing to every border.
    pub open spec fn contained_with_margin(self, w: int, h: int, m: int) -> bool {
        m <= self.x && m <= self.y && self.x + self.width + m <= w && self.y + self.height + m <= h
    }

    /// The two rectangles, each grown by `m` tiles on every side, intersect.
    pub open spec fn spec_overlaps_with_margin(self, o: Room, m: int) -> bool {
        self.x - m < o.x + o.width + m && o.x - m < self.x + self.width + m
            && self.y - m < o.y + o.height + m && o.y - m < self.y + self.height + m
    }

    /// Whether this room's rectangle, grown by `margin` on every side,
    /// intersects `other`'s equally grown rectangle.
    pub fn overlaps_with_margin(&self, other: &Room, margin: i32) -> (r: bool)
        ensures
            r == self.spec_overlaps_with_margin(*other, margin as int),
    {
        let sx: i64 = self.x as i64;
        let sy: i64 = self.y as i64;
        let ox: i64 = other.x as i64;
        let oy: i64 = other.y as i64;
        let m: i64 = margin as i64;
        sx - m < ox + other.width as i64 + m && ox - m < sx + self.width as i64 + m
            && sy - m < oy + other.height as i64 + m && oy - m < sy + self.height as i64 + m
    }

    /// The centre cell of the room: the midpoint of each axis, rounded down.
    pub open spec fn spec_centre(self) -> (int, int) {
        (self.x + self.width / 2, self.y + self.height / 2)
    }

    /// The centre cell of the room.
    pub fn centre(&self) -> (c: (i32, i32))
        requires
            self.wf(),
            0 <= self.x,
            0 <= self.y,
            self.x + self.width <= i32::MAX,
            self.y + self.height <= i32::MAX,
        ensures
            c.0 == self.spec_centre().0,
            c.1 == self.spec_centre().1,
            self.contains(c.0 as int, c.1 as int),
    {
        (self.x + self.width / 2, self.y + self.height / 2)
    }
}

/// A well-formed room contains its own centre cell.
pub proof fn lemma_centre_in_room(r: Room)
    requires
        r.wf(),
    ensures
        r.contains(r.spec_centre().0, r.spec_centre().1),
{
}

} // verus!
