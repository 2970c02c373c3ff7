//! The wall-border pass: a rendering-only decoration that marks every solid
//! cell touching carved space.

use vstd::prelude::*;
use crate::board::Board;
use crate::path::passable_at;
use crate::tile::Tile;

verus! {

/// Some 4-neighbour of `(x, y)` is a passable cell of the board.
pub open spec fn has_passable_neighbour(b: Board, x: int, y: int) -> bool {
    ||| passable_at(b, x - 1, y)
    ||| passable_at(b, x + 1, y)
    ||| passable_at(b, x, y - 1)
    ||| passable_at(b, x, y + 1)
}

/// What the wall pass leaves at `(x, y)`: `Empty` becomes `Wall` exactly when
/// the cell touches carved space; every other cell keeps its state.
pub open spec fn decorated(b: Board, x: int, y: int) -> Tile {
    if b.tile_at(x, y) == Tile::Empty && has_passable_neighbour(b, x, y) {
        Tile::Wall
    } else {
        b.tile_at(x, y)
    }
}

/// Whether the 4-neighbourhood of `(x, y)` holds a passable tile, on a board
/// whose cells are all passable exactly where those of `ghost_ref` are.
fn passable_neighbour(board: &Board, x: i32, y: i32, Ghost(ghost_ref): Ghost<Board>) -> (r: bool)
    requires
        board.wf(),
        board.in_bounds(x as int, y as int),
        board.spec_width() == ghost_ref.spec_width(),
        board.spec_height() == ghost_ref.spec_height(),
        forall|i: int, j: int|
            board.in_bounds(i, j)
                ==> (#[trigger] board.tile_at(i, j)).is_passable()
                    == ghost_ref.tile_at(i, j).is_passable(),
    ensures
        r == has_passable_neighbour(ghost_ref, x as int, y as int),
{
    proof {
        board.lemma_dims();
    }
    let w = board.width();
    let h = board.height();
    let mut r = false;
    if x > 0 {
        r = r || board.at(x - 1, y).is_passable_tile();
    }
    if x < w - 1 {
        r = r || board.at(x + 1, y).is_passable_tile();
    }
    if y > 0 {
        r = r || board.at(x, y - 1).is_passable_tile();
    }
    if y < h - 1 {
        r = r || board.at(x, y + 1).is_passable_tile();
    }
    r
}

/// Marks every `Empty` cell that touches a `Floor` or `Corridor` cell as
/// `Wall`; all other cells keep their state. The decision is taken against the
/// grid as it stood before the pass.
pub(crate) fn add_wall_border(board: &mut Board)
    requires
        old(board).wf(),
    ensures
        final(board).wf(),
        final(board).spec_width() == old(board).spec_width(),
        final(board).spec_height() == old(board).spec_height(),
        forall|i: int, j: int|
            old(board).in_bounds(i, j)
                ==> final(board).tile_at(i, j) == decorated(*old(board), i, j),
{
    proof {
        board.lemma_dims();
    }
    let ghost b0 = *board;
    let w = board.width();
    let h = board.height();
    let mut y: i32 = 0;
    while y < h
        invariant
            board.wf(),
            board.spec_width() == b0.spec_width(),
            board.spec_height() == b0.spec_height(),
            b0.wf(),
            0 <= y <= h,
            0 < w,
            w as int == b0.spec_width(),
            h as int == b0.spec_height(),
            forall|i: int, j: int|
                b0.in_bounds(i, j) && j < y as int
                    ==> #[trigger] board.tile_at(i, j) == decorated(b0, i, j),
            forall|i: int, j: int|
                b0.in_bounds(i, j) && j >= y as int
                    ==> #[trigger] board.tile_at(i, j) == b0.tile_at(i, j),
        decreases h - y,
    {
        let mut x: i32 = 0;
        while x < w
            invariant
                board.wf(),
                board.spec_width() == b0.spec_width(),
                board.spec_height() == b0.spec_height(),
                b0.wf(),
                0 <= y < h,
                0 <= x <= w,
                0 < w,
                w as int == b0.spec_width(),
                h as int == b0.spec_height(),
                forall|i: int, j: int|
                    b0.in_bounds(i, j) && (j < y as int || (j == y as int && i < x as int))
                        ==> #[trigger] board.tile_at(i, j) == decorated(b0, i, j),
                forall|i: int, j: int|
                    b0.in_bounds(i, j) && (j > y as int || (j == y as int && i >= x as int))
                        ==> #[trigger] board.tile_at(i, j) == b0.tile_at(i, j),
            decreases w - x,
        {
            proof {
                assert forall|i: int, j: int| board.in_bounds(i, j)
                    implies (#[trigger] board.tile_at(i, j)).is_passable()
                        == b0.tile_at(i, j).is_passable() by {
                    if j < y as int || (j == y as int && i < x as int) {
                        assert(board.tile_at(i, j) == decorated(b0, i, j));
                    } else {
                        assert(board.tile_at(i, j) == b0.tile_at(i, j));
                    }
                }
            }
            let t = board.at(x, y);
            if t == Tile::Empty {
                let near = passable_neighbour(board, x, y, Ghost(b0));
                if near {
                    board.put(x, y, Tile::Wall);
                }
            }
            x = x + 1;
        }
        y = y + 1;
    }
}

} // verus!
