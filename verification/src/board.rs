//! The tile grid: a fixed-size, row-major board of tiles.

use vstd::prelude::*;
use vstd::pervasive::VecAdditionalExecFns;
use crate::error::DungeonError;
use crate::tile::Tile;

verus! {

/// A `width` by `height` grid of tiles, stored row-major: cell `(x, y)` lives
/// at index `y * width + x`.
#[derive(Debug)]
pub struct Board {
    width: i32,
    height: i32,
    tiles: Vec<Tile>,
}

/// Position of a cell inside the backing vector, and its bounds.
proof fn lemma_row_major_index(x: int, y: int, w: int, h: int)
    requires
        0 <= x < w,
        0 <= y < h,
    ensures
        0 <= y * w + x < w * h,
{
    assert(0 <= y * w + x < w * h) by (nonlinear_arith)
        requires
            0 <= x < w,
            0 <= y < h,
    ;
}

/// Distinct cells occupy distinct indices of the backing vector.
proof fn lemma_row_major_injective(x1: int, y1: int, x2: int, y2: int, w: int)
    requires
        0 <= x1 < w,
        0 <= x2 < w,
        0 <= y1,
        0 <= y2,
        !(x1 == x2 && y1 == y2),
    ensures
        y1 * w + x1 != y2 * w + x2,
{
    assert(y1 * w + x1 != y2 * w + x2) by (nonlinear_arith)
        requires
            0 <= x1 < w,
            0 <= x2 < w,
            0 <= y1,
            0 <= y2,
            !(x1 == x2 && y1 == y2),
    ;
}

impl Board {
    /// Internal shape invariant: positive sides, a backing vector of exactly
    /// `width * height` tiles, and a total cell count that fits in `i32`.
    pub closed spec fn wf(self) -> bool {
        &&& 0 < self.width
        &&& 0 < self.height
        &&& self.width as int * self.height as int <= i32::MAX as int
        &&& self.tiles@.len() == self.width as int * self.height as int
    }

    pub closed spec fn spec_width(self) -> int {
        self.width as int
    }

    pub closed spec fn spec_height(self) -> int {
        self.height as int
    }

    /// The coordinate `(x, y)` lies inside the grid.
    pub open spec fn in_bounds(self, x: int, y: int) -> bool {
        0 <= x < self.spec_width() && 0 <= y < self.spec_height()
    }

    /// The tile stored at `(x, y)`.
    pub closed spec fn tile_at(self, x: int, y: int) -> Tile {
        self.tiles@[y * self.spec_width() + x]
    }

    /// The sides of a well-formed board are positive and fit in `i32`.
    pub proof fn lemma_dims(self)
        requires
            self.wf(),
        ensures
            0 < self.spec_width() <= i32::MAX,
            0 < self.spec_height() <= i32::MAX,
            self.spec_width() * self.spec_height() <= i32::MAX,
    {
    }

    pub fn width(&self) -> (w: i32)
        ensures
            w as int == self.spec_width(),
    {
        self.width
    }

    pub fn height(&self) -> (h: i32)
        ensures
            h as int == self.spec_height(),
    {
        self.height
    }

    /// A fresh board with every cell set to `tile`.
    pub fn filled(width: i32, height: i32, tile: Tile) -> (b: Board)
        requires
            0 < width,
            0 < height,
            width as int * height as int <= i32::MAX as int,
        ensures
            b.wf(),
            b.spec_width() == width as int,
            b.spec_height() == height as int,
            forall|x: int, y: int| b.in_bounds(x, y) ==> b.tile_at(x, y) == tile,
    {
        proof {
            assert(0 < width as int * height as int) by (nonlinear_arith)
                requires 0 < width && 0 < height;
        }
        let n: usize = (width as usize) * (height as usize);
        let mut tiles: Vec<Tile> = Vec::new();
        let mut i: usize = 0;
        while i < n
            invariant
                i <= n,
                n == width as int * height as int,
                tiles@.len() == i,
                forall|k: int| 0 <= k < i ==> tiles@[k] == tile,
            decreases n - i,
        {
            tiles.push(tile);
            i = i + 1;
        }
        let b = Board { width, height, tiles };
        proof {
            assert forall|x: int, y: int| b.in_bounds(x, y) implies b.tile_at(x, y) == tile by {
                lemma_row_major_index(x, y, width as int, height as int);
            }
        }
        b
    }

    /// A fresh all-`Empty` board, rejecting non-positive dimensions.
    pub fn new(width: i32, height: i32) -> (r: Result<Board, DungeonError>)
        requires
            width as int * height as int <= i32::MAX as int,
        ensures
            r is Err <==> (width <= 0 || height <= 0),
            r is Err ==> r == Err::<Board, DungeonError>(DungeonError::InvalidDimension),
            r is Ok ==> {
                let b = r.unwrap();
                &&& b.wf()
                &&& b.spec_width() == width as int
                &&& b.spec_height() == height as int
                &&& forall|x: int, y: int| b.in_bounds(x, y) ==> b.tile_at(x, y) == Tile::Empty
            },
    {
        if width <= 0 || height <= 0 {
            Err(DungeonError::InvalidDimension)
        } else {
            Ok(Board::filled(width, height, Tile::Empty))
        }
    }

    /// The tile at `(x, y)`, with a proven-in-bounds coordinate.
    pub fn at(&self, x: i32, y: i32) -> (t: Tile)
        requires
            self.wf(),
            self.in_bounds(x as int, y as int),
        ensures
            t == self.tile_at(x as int, y as int),
    {
        proof {
            lemma_row_major_index(x as int, y as int, self.spec_width(), self.spec_height());
        }
        let idx: usize = (y as usize) * (self.width as usize) + (x as usize);
        self.tiles[idx]
    }

    /// Writes `tile` at `(x, y)`, with a proven-in-bounds coordinate; every
    /// other cell keeps its state.
    pub fn put(&mut self, x: i32, y: i32, tile: Tile)
        requires
            old(self).wf(),
            old(self).in_bounds(x as int, y as int),
        ensures
            final(self).wf(),
            final(self).spec_width() == old(self).spec_width(),
            final(self).spec_height() == old(self).spec_height(),
            final(self).tile_at(x as int, y as int) == tile,
            forall|i: int, j: int|
                old(self).in_bounds(i, j) && !(i == x as int && j == y as int)
                    ==> final(self).tile_at(i, j) == old(self).tile_at(i, j),
    {
        proof {
            lemma_row_major_index(x as int, y as int, self.spec_width(), self.spec_height());
        }
        let idx: usize = (y as usize) * (self.width as usize) + (x as usize);
        self.tiles.set(idx, tile);
        proof {
            assert forall|i: int, j: int|
                old(self).in_bounds(i, j) && !(i == x as int && j == y as int)
                    implies final(self).tile_at(i, j) == old(self).tile_at(i, j) by {
                lemma_row_major_index(i, j, self.spec_width(), self.spec_height());
                lemma_row_major_injective(i, j, x as int, y as int, self.spec_width());
            }
        }
    }

    /// The tile at `(x, y)`, rejecting an out-of-bounds coordinate.
    pub fn get(&self, x: i32, y: i32) -> (r: Result<Tile, DungeonError>)
        requires
            self.wf(),
        ensures
            r is Ok <==> self.in_bounds(x as int, y as int),
            r is Err ==> r == Err::<Tile, DungeonError>(DungeonError::OutOfBounds),
            r is Ok ==> r == Ok::<Tile, DungeonError>(self.tile_at(x as int, y as int)),
    {
        if 0 <= x && x < self.width && 0 <= y && y < self.height {
            Ok(self.at(x, y))
        } else {
            Err(DungeonError::OutOfBounds)
        }
    }

    /// Writes `tile` at `(x, y)`, rejecting an out-of-bounds coordinate and
    /// leaving the board untouched in that case.
    pub fn set(&mut self, x: i32, y: i32, tile: Tile) -> (r: Result<(), DungeonError>)
        requires
            old(self).wf(),
        ensures
            final(self).wf(),
            final(self).spec_width() == old(self).spec_width(),
            final(self).spec_height() == old(self).spec_height(),
            r is Ok <==> old(self).in_bounds(x as int, y as int),
            r is Err ==> r == Err::<(), DungeonError>(DungeonError::OutOfBounds)
                && *final(self) == *old(self),
            r is Ok ==> final(self).tile_at(x as int, y as int) == tile,
            r is Ok ==> forall|i: int, j: int|
                old(self).in_bounds(i, j) && !(i == x as int && j == y as int)
                    ==> final(self).tile_at(i, j) == old(self).tile_at(i, j),
    {
        if 0 <= x && x < self.width && 0 <= y && y < self.height {
            self.put(x, y, tile);
            Ok(())
        } else {
            Err(DungeonError::OutOfBounds)
        }
    }

    /// Sets every cell of the board to `tile`.
    pub fn fill(&mut self, tile: Tile)
        requires
            old(self).wf(),
        ensures
            final(self).wf(),
            final(self).spec_width() == old(self).spec_width(),
            final(self).spec_height() == old(self).spec_height(),
            forall|x: int, y: int| final(self).in_bounds(x, y) ==> final(self).tile_at(x, y) == tile,
    {
        let fresh = Board::filled(self.width, self.height, tile);
        *self = fresh;
    }
}

} // verus!
