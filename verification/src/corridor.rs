//! Corridor carving: orthogonal, L-shaped paths between room centres.
//!
//! The elbow rule is fixed so that generation is deterministic: from `a` the
//! corridor first runs horizontally on `a`'s row to `c`'s column, then
//! vertically on `c`'s column. Carving turns any non-`Floor` cell on the path
//! into `Corridor` and never overwrites a `Floor` tile.

use vstd::prelude::*;
use crate::board::Board;
use crate::path::{connected, passable_at};
use crate::path::{lemma_connected_sym, lemma_connected_trans,
    lemma_h_run_connected, lemma_v_run_connected};
use crate::tile::Tile;

verus! {

/// `v` lies in the closed interval spanned by `a` and `b`, in either order.
pub open spec fn between(a: int, b: int, v: int) -> bool {
    (a <= v && v <= b) || (b <= v && v <= a)
}

/// The cell `(i, j)` lies on the L-shaped corridor from `a` to `c`: on `a`'s
/// row between the two columns, or on `c`'s column between the two rows.
pub open spec fn on_l_path(a: (int, int), c: (int, int), i: int, j: int) -> bool {
    (j == a.1 && between(a.0, c.0, i)) || (i == c.0 && between(a.1, c.1, j))
}

/// What carving leaves at a cell on the corridor.
pub open spec fn carved(t: Tile) -> Tile {
    if t == Tile::Floor {
        Tile::Floor
    } else {
        Tile::Corridor
    }
}

/// Carves one horizontal run on row `y`, spanning the columns of `xa` and
/// `xb` inclusive, in either order.
fn carve_h(board: &mut Board, xa: i32, xb: i32, y: i32)
    requires
        old(board).wf(),
        old(board).in_bounds(xa as int, y as int),
        old(board).in_bounds(xb as int, y as int),
    ensures
        final(board).wf(),
        final(board).spec_width() == old(board).spec_width(),
        final(board).spec_height() == old(board).spec_height(),
        forall|i: int, j: int|
            old(board).in_bounds(i, j) && !(j == y as int && between(xa as int, xb as int, i))
                ==> final(board).tile_at(i, j) == old(board).tile_at(i, j),
        forall|i: int, j: int|
            old(board).in_bounds(i, j) && j == y as int && between(xa as int, xb as int, i)
                ==> final(board).tile_at(i, j) == carved(old(board).tile_at(i, j)),
{
    let lo: i32 = if xa <= xb { xa } else { xb };
    let hi: i32 = if xa <= xb { xb } else { xa };
    let mut x: i32 = lo;
    while x <= hi
        invariant
            board.wf(),
            board.spec_width() == old(board).spec_width(),
            board.spec_height() == old(board).spec_height(),
            lo <= x,
            x <= hi + 1,
            lo == if xa <= xb { xa as int } else { xb as int },
            hi == if xa <= xb { xb as int } else { xa as int },
            old(board).in_bounds(lo as int, y as int),
            old(board).in_bounds(hi as int, y as int),
            forall|i: int, j: int|
                old(board).in_bounds(i, j) && !(j == y as int && lo <= i < x as int)
                    ==> board.tile_at(i, j) == old(board).tile_at(i, j),
            forall|i: int, j: int|
                old(board).in_bounds(i, j) && j == y as int && lo <= i < x as int
                    ==> board.tile_at(i, j) == carved(old(board).tile_at(i, j)),
        decreases hi + 1 - x,
    {
        let t = board.at(x, y);
        if t != Tile::Floor {
            board.put(x, y, Tile::Corridor);
        }
        proof {
            board.lemma_dims();
        }
        x = x + 1;
    }
}

/// Carves one vertical run on column `x`, spanning the rows of `ya` and `yb`
/// inclusive, in either order.
fn carve_v(board: &mut Board, x: i32, ya: i32, yb: i32)
    requires
        old(board).wf(),
        old(board).in_bounds(x as int, ya as int),
        old(board).in_bounds(x as int, yb as int),
    ensures
        final(board).wf(),
        final(board).spec_width() == old(board).spec_width(),
        final(board).spec_height() == old(board).spec_height(),
        forall|i: int, j: int|
            old(board).in_bounds(i, j) && !(i == x as int && between(ya as int, yb as int, j))
                ==> final(board).tile_at(i, j) == old(board).tile_at(i, j),
        forall|i: int, j: int|
            old(board).in_bounds(i, j) && i == x as int && between(ya as int, yb as int, j)
                ==> final(board).tile_at(i, j) == carved(old(board).tile_at(i, j)),
{
    let lo: i32 = if ya <= yb { ya } else { yb };
    let hi: i32 = if ya <= yb { yb } else { ya };
    let mut y: i32 = lo;
    while y <= hi
        invariant
            board.wf(),
            board.spec_width() == old(board).spec_width(),
            board.spec_height() == old(board).spec_height(),
            lo <= y,
            y <= hi + 1,
            lo == if ya <= yb { ya as int } else { yb as int },
            hi == if ya <= yb { yb as int } else { ya as int },
            old(board).in_bounds(x as int, lo as int),
            old(board).in_bounds(x as int, hi as int),
            forall|i: int, j: int|
                old(board).in_bounds(i, j) && !(i == x as int && lo <= j < y as int)
                    ==> board.tile_at(i, j) == old(board).tile_at(i, j),
            forall|i: int, j: int|
                old(board).in_bounds(i, j) && i == x as int && lo <= j < y as int
                    ==> board.tile_at(i, j) == carved(old(board).tile_at(i, j)),
        decreases hi + 1 - y,
    {
        let t = board.at(x, y);
        if t != Tile::Floor {
            board.put(x, y, Tile::Corridor);
        }
        proof {
            board.lemma_dims();
        }
        y = y + 1;
    }
}

/// Carves the L-shaped corridor from `a` to `c`: first horizontally on `a`'s
/// row, then vertically on `c`'s column. Exactly the cells on that L change,
/// each to `Corridor` unless it already was `Floor`; afterwards the two
/// endpoints are connected by passable tiles.
pub(crate) fn carve_corridor(board: &mut Board, a: (i32, i32), c: (i32, i32))
    requires
        old(board).wf(),
        old(board).in_bounds(a.0 as int, a.1 as int),
        old(board).in_bounds(c.0 as int, c.1 as int),
    ensures
        final(board).wf(),
        final(board).spec_width() == old(board).spec_width(),
        final(board).spec_height() == old(board).spec_height(),
        forall|i: int, j: int|
            old(board).in_bounds(i, j) && !on_l_path((a.0 as int, a.1 as int), (c.0 as int, c.1 as int), i, j)
                ==> final(board).tile_at(i, j) == old(board).tile_at(i, j),
        forall|i: int, j: int|
            old(board).in_bounds(i, j) && on_l_path((a.0 as int, a.1 as int), (c.0 as int, c.1 as int), i, j)
                ==> final(board).tile_at(i, j) == carved(old(board).tile_at(i, j)),
        forall|i: int, j: int|
            old(board).in_bounds(i, j) && old(board).tile_at(i, j).is_passable()
                ==> final(board).tile_at(i, j).is_passable(),
        forall|i: int, j: int|
            old(board).in_bounds(i, j) && old(board).tile_at(i, j) == Tile::Floor
                ==> final(board).tile_at(i, j) == Tile::Floor,
        connected(*final(board), (a.0 as int, a.1 as int), (c.0 as int, c.1 as int)),
{
    let ghost b0 = *board;
    carve_h(board, a.0, c.0, a.1);
    let ghost b1 = *board;
    carve_v(board, c.0, a.1, c.1);
    proof {
        let ai = (a.0 as int, a.1 as int);
        let ci = (c.0 as int, c.1 as int);
        // The horizontal run of the L is passable in the final board.
        assert forall|i: int| between(ai.0, ci.0, i) implies passable_at(*board, i, ai.1) by {
            assert(b0.in_bounds(i, ai.1));
            assert(b1.tile_at(i, ai.1) == carved(b0.tile_at(i, ai.1)));
        }
        // So is the vertical run.
        assert forall|j: int| between(ai.1, ci.1, j) implies passable_at(*board, ci.0, j) by {
            assert(b0.in_bounds(ci.0, j));
        }
        let lo_x = if ai.0 <= ci.0 { ai.0 } else { ci.0 };
        let hi_x = if ai.0 <= ci.0 { ci.0 } else { ai.0 };
        assert forall|x: int| lo_x <= x <= hi_x implies passable_at(*board, x, ai.1) by {
            assert(between(ai.0, ci.0, x));
        }
        lemma_h_run_connected(*board, lo_x, hi_x, ai.1);
        if ai.0 <= ci.0 {
            assert(connected(*board, ai, (ci.0, ai.1)));
        } else {
            lemma_connected_sym(*board, (lo_x, ai.1), (hi_x, ai.1));
            assert(connected(*board, ai, (ci.0, ai.1)));
        }
        let lo_y = if ai.1 <= ci.1 { ai.1 } else { ci.1 };
        let hi_y = if ai.1 <= ci.1 { ci.1 } else { ai.1 };
        assert forall|y: int| lo_y <= y <= hi_y implies passable_at(*board, ci.0, y) by {
            assert(between(ai.1, ci.1, y));
        }
        lemma_v_run_connected(*board, ci.0, lo_y, hi_y);
        if ai.1 <= ci.1 {
            assert(connected(*board, (ci.0, ai.1), ci));
        } else {
            lemma_connected_sym(*board, (ci.0, lo_y), (ci.0, hi_y));
            assert(connected(*board, (ci.0, ai.1), ci));
        }
        lemma_connected_trans(*board, ai, (ci.0, ai.1), ci);
    }
}

} // verus!
