//! The generated level: grid, room list and metadata, read-only once built.

use vstd::prelude::*;
use vstd::string::StringExecFns;
use crate::Algorithm;
use crate::board::Board;
use crate::path::{connected, passable_at};
use crate::room::Room;
use crate::tile::Tile;

verus! {

/// The aggregate a generator returns: the carved grid, the rooms in placement
/// order, the opaque seed token the caller supplied, the board dimensions and
/// the algorithm that produced it.
#[derive(Debug)]
pub struct Level {
    pub width: i32,
    pub height: i32,
    pub seed: String,
    pub board: Board,
    pub rooms: Vec<Room>,
    pub algorithm: Algorithm,
}

/// The first `x` glyphs of row `y` of the rendering.
pub open spec fn row_glyphs(b: Board, y: int, x: int) -> Seq<char>
    decreases x,
{
    if x <= 0 {
        Seq::empty()
    } else {
        row_glyphs(b, y, x - 1).push(b.tile_at(x - 1, y).spec_glyph())
    }
}

/// The first `y` rendered rows, each closed by a line break.
pub open spec fn rendered_rows(b: Board, y: int) -> Seq<char>
    decreases y,
{
    if y <= 0 {
        Seq::empty()
    } else {
        rendered_rows(b, y - 1) + row_glyphs(b, y - 1, b.spec_width()) + seq!['\n']
    }
}

/// The first `x` tile codes of row `y`.
pub open spec fn row_codes(b: Board, y: int, x: int) -> Seq<u8>
    decreases x,
{
    if x <= 0 {
        Seq::empty()
    } else {
        row_codes(b, y, x - 1).push(b.tile_at(x - 1, y).spec_code())
    }
}

impl Level {
    /// The grid is well-formed and matches the declared dimensions.
    pub open spec fn wf(self) -> bool {
        &&& self.board.wf()
        &&& self.board.spec_width() == self.width as int
        &&& self.board.spec_height() == self.height as int
    }

    /// Every room is well-formed, at least the configured minimum size, and
    /// held inside the board with `m` tiles of spacing to the border.
    pub open spec fn rooms_ok(self, min_w: int, min_h: int, m: int) -> bool {
        forall|k: int| 0 <= k < self.rooms@.len() ==> {
            let r = #[trigger] self.rooms@[k];
            &&& r.wf()
            &&& min_w <= r.width
            &&& min_h <= r.height
            &&& r.contained_with_margin(self.width as int, self.height as int, m)
        }
    }

    /// Every cell of every room is floor.
    pub open spec fn rooms_carved(self) -> bool {
        forall|k: int, i: int, j: int|
            0 <= k < self.rooms@.len() && #[trigger] self.rooms@[k].contains(i, j)
                && self.board.in_bounds(i, j)
                ==> self.board.tile_at(i, j) == Tile::Floor
    }

    /// Floor tiles appear only inside rooms: carving never paints floor
    /// anywhere else (corridors carve the distinct `Corridor` state).
    pub open spec fn floor_only_in_rooms(self) -> bool {
        forall|i: int, j: int|
            self.board.in_bounds(i, j) && #[trigger] self.board.tile_at(i, j) == Tile::Floor
                ==> exists|k: int|
                    0 <= k < self.rooms@.len() && (#[trigger] self.rooms@[k]).contains(i, j)
    }

    /// No two rooms' rectangles, each grown by `m`, intersect.
    pub open spec fn rooms_disjoint(self, m: int) -> bool {
        forall|k1: int, k2: int|
            0 <= k1 < k2 < self.rooms@.len()
                ==> !(#[trigger] self.rooms@[k1]).spec_overlaps_with_margin(
                    #[trigger] self.rooms@[k2], m)
    }

    /// A walk of passable tiles joins the centres of every two rooms.
    pub open spec fn rooms_connected(self) -> bool {
        forall|k1: int, k2: int|
            0 <= k1 < self.rooms@.len() && 0 <= k2 < self.rooms@.len()
                ==> connected(self.board,
                    (#[trigger] self.rooms@[k1]).spec_centre(),
                    (#[trigger] self.rooms@[k2]).spec_centre())
    }

    /// The wall-border decoration is exact: a `Wall` tile always touches a
    /// passable tile; without the flag no cell is `Wall`; with the flag no
    /// `Empty` cell touches a passable tile.
    pub open spec fn walls_decorated(self, add_walls: bool) -> bool {
        &&& forall|i: int, j: int|
            self.board.in_bounds(i, j) && #[trigger] self.board.tile_at(i, j) == Tile::Wall
                ==> crate::walls::has_passable_neighbour(self.board, i, j)
        &&& !add_walls ==> forall|i: int, j: int|
            self.board.in_bounds(i, j) ==> #[trigger] self.board.tile_at(i, j) != Tile::Wall
        &&& add_walls ==> forall|i: int, j: int|
            self.board.in_bounds(i, j) && #[trigger] self.board.tile_at(i, j) == Tile::Empty
                ==> !crate::walls::has_passable_neighbour(self.board, i, j)
    }

    /// The text rendering: one line per grid row, top to bottom, one fixed
    /// glyph per tile, left to right, each row closed by a line break.
    pub fn render(&self) -> (s: String)
        requires
            self.wf(),
        ensures
            s@ == rendered_rows(self.board, self.board.spec_height()),
    {
        proof {
            self.board.lemma_dims();
            reveal_strlit("\n");
        }
        let w = self.board.width();
        let h = self.board.height();
        let mut s = String::new();
        let mut y: i32 = 0;
        while y < h
            invariant
                self.wf(),
                0 <= y <= h,
                0 < w,
                w as int == self.board.spec_width(),
                h as int == self.board.spec_height(),
                s@ == rendered_rows(self.board, y as int),
                "\n"@ == seq!['\n'],
            decreases h - y,
        {
            let mut x: i32 = 0;
            while x < w
                invariant
                    self.wf(),
                    0 <= y < h,
                    0 <= x <= w,
                    w as int == self.board.spec_width(),
                    h as int == self.board.spec_height(),
                    s@ == rendered_rows(self.board, y as int)
                        + row_glyphs(self.board, y as int, x as int),
                decreases w - x,
            {
                let t = self.board.at(x, y);
                s.append(t.glyph());
                x = x + 1;
            }
            s.append("\n");
            proof {
                assert(s@ =~= rendered_rows(self.board, y as int + 1));
            }
            y = y + 1;
        }
        s
    }

    /// The CSV export: `height` rows of `width` stable tile codes each.
    pub fn board_to_csv(&self) -> (rows: Vec<Vec<u8>>)
        requires
            self.wf(),
        ensures
            rows@.len() == self.height as int,
            forall|y: int| 0 <= y < rows@.len() ==> (#[trigger] rows@[y])@.len() == self.width as int,
            forall|y: int, x: int|
                0 <= y < rows@.len() && 0 <= x < rows@[y]@.len()
                    ==> #[trigger] rows@[y]@[x] == self.board.tile_at(x, y).spec_code(),
    {
        proof {
            self.board.lemma_dims();
        }
        let w = self.board.width();
        let h = self.board.height();
        let mut rows: Vec<Vec<u8>> = Vec::new();
        let mut y: i32 = 0;
        while y < h
            invariant
                self.wf(),
                0 <= y <= h,
                0 < w,
                w as int == self.board.spec_width(),
                h as int == self.board.spec_height(),
                rows@.len() == y as int,
                forall|j: int| 0 <= j < y as int ==> (#[trigger] rows@[j])@ == row_codes(self.board, j, w as int),
                forall|j: int| 0 <= j < y as int ==> (#[trigger] rows@[j])@.len() == w as int,
            decreases h - y,
        {
            let mut row: Vec<u8> = Vec::new();
            let mut x: i32 = 0;
            while x < w
                invariant
                    self.wf(),
                    0 <= y < h,
                    0 <= x <= w,
                    w as int == self.board.spec_width(),
                    h as int == self.board.spec_height(),
                    row@ == row_codes(self.board, y as int, x as int),
                    row@.len() == x as int,
                decreases w - x,
            {
                let t = self.board.at(x, y);
                row.push(t.code());
                x = x + 1;
            }
            rows.push(row);
            y = y + 1;
        }
        proof {
            assert forall|y0: int, x0: int|
                0 <= y0 < rows@.len() && 0 <= x0 < rows@[y0]@.len()
                    implies #[trigger] rows@[y0]@[x0] == self.board.tile_at(x0, y0).spec_code() by {
                lemma_row_codes_index(self.board, y0, w as int, x0);
            }
        }
        rows
    }
}

/// Law: in a generated level, every pair of room cells is joined by a walk of
/// passable tiles under 4-directional movement, whichever rooms they lie in.
/// Room interiors are floor and internally connected, and the generators
/// join all room centres.
pub proof fn lemma_rooms_fully_connected(lv: Level, k1: int, k2: int, p: (int, int), q: (int, int))
    requires
        lv.wf(),
        lv.rooms_carved(),
        lv.rooms_connected(),
        forall|k: int| 0 <= k < lv.rooms@.len() ==> (#[trigger] lv.rooms@[k]).wf()
            && lv.rooms@[k].contained_in(lv.width as int, lv.height as int),
        0 <= k1 < lv.rooms@.len(),
        0 <= k2 < lv.rooms@.len(),
        lv.rooms@[k1].contains(p.0, p.1),
        lv.rooms@[k2].contains(q.0, q.1),
    ensures
        connected(lv.board, p, q),
{
    let r1 = lv.rooms@[k1];
    let r2 = lv.rooms@[k2];
    crate::room::lemma_centre_in_room(r1);
    crate::room::lemma_centre_in_room(r2);
    assert forall|i: int, j: int| #[trigger] r1.contains(i, j)
        implies passable_at(lv.board, i, j) by {
        assert(lv.board.in_bounds(i, j));
    }
    assert forall|i: int, j: int| #[trigger] r2.contains(i, j)
        implies passable_at(lv.board, i, j) by {
        assert(lv.board.in_bounds(i, j));
    }
    crate::path::lemma_rect_connected(lv.board, r1, p, r1.spec_centre());
    crate::path::lemma_rect_connected(lv.board, r2, r2.spec_centre(), q);
    assert(connected(lv.board, r1.spec_centre(), r2.spec_centre()));
    crate::path::lemma_connected_trans(lv.board, p, r1.spec_centre(), r2.spec_centre());
    crate::path::lemma_connected_trans(lv.board, p, r2.spec_centre(), q);
}

/// A code row of `w` cells has length `w`.
proof fn lemma_row_codes_len(b: Board, y: int, w: int)
    requires
        0 <= w,
    ensures
        row_codes(b, y, w).len() == w,
    decreases w,
{
    if w > 0 {
        lemma_row_codes_len(b, y, w - 1);
    }
}

/// The `x`-th entry of a code row is the code of the tile at `(x, y)`.
proof fn lemma_row_codes_index(b: Board, y: int, w: int, x: int)
    requires
        0 <= x < w,
    ensures
        row_codes(b, y, w)[x] == b.tile_at(x, y).spec_code(),
    decreases w,
{
    lemma_row_codes_len(b, y, w - 1);
    if x == w - 1 {
    } else {
        lemma_row_codes_index(b, y, w - 1, x);
    }
}

} // verus!
