//! The Rooms & Corridors generator: randomly placed, non-overlapping rooms,
//! joined in placement order by L-shaped corridors.
//!
//! Randomness is drawn from the supplied source in a fixed order: for each
//! placement attempt the room width, then its height, then the x and the y of
//! its top-left corner. A level is therefore a function of the parameters and
//! the source's state alone.

use vstd::prelude::*;
use vstd::string::StringExecFns;
use rand::rngs::StdRng;
use crate::{Algorithm, can_host, valid_config};
use crate::board::Board;
use crate::corridor::carve_corridor;
use crate::error::DungeonError;
use crate::level::Level;
use crate::path::{connected, passable_at};
use crate::path::{lemma_connected_monotone, lemma_connected_refl, lemma_connected_sym,
    lemma_connected_trans};
use crate::rng::rand_range;
use crate::room::{Room, ROOM_MARGIN};
use crate::tile::Tile;

verus! {

/// Sets row `y` to `Floor` on the columns `x1 <= x < x2` and touches nothing
/// else.
fn carve_row(board: &mut Board, x1: i32, x2: i32, y: i32)
    requires
        old(board).wf(),
        x1 < x2,
        old(board).in_bounds(x1 as int, y as int),
        old(board).in_bounds(x2 as int - 1, y as int),
    ensures
        final(board).wf(),
        final(board).spec_width() == old(board).spec_width(),
        final(board).spec_height() == old(board).spec_height(),
        forall|i: int, j: int|
            old(board).in_bounds(i, j) && j == y as int && x1 as int <= i < x2 as int
                ==> final(board).tile_at(i, j) == Tile::Floor,
        forall|i: int, j: int|
            old(board).in_bounds(i, j) && !(j == y as int && x1 as int <= i < x2 as int)
                ==> final(board).tile_at(i, j) == old(board).tile_at(i, j),
{
    let mut x: i32 = x1;
    while x < x2
        invariant
            board.wf(),
            board.spec_width() == old(board).spec_width(),
            board.spec_height() == old(board).spec_height(),
            x1 <= x <= x2,
            old(board).in_bounds(x1 as int, y as int),
            old(board).in_bounds(x2 as int - 1, y as int),
            forall|i: int, j: int|
                old(board).in_bounds(i, j) && j == y as int && x1 as int <= i < x as int
                    ==> board.tile_at(i, j) == Tile::Floor,
            forall|i: int, j: int|
                old(board).in_bounds(i, j) && !(j == y as int && x1 as int <= i < x as int)
                    ==> board.tile_at(i, j) == old(board).tile_at(i, j),
        decreases x2 - x,
    {
        board.put(x, y, Tile::Floor);
        x = x + 1;
    }
}

/// Sets every cell of `room` to `Floor` and touches nothing else.
#[verifier::rlimit(30)]
pub(crate) fn carve_room(board: &mut Board, room: Room)
    requires
        old(board).wf(),
        room.wf(),
        room.contained_in(old(board).spec_width(), old(board).spec_height()),
    ensures
        final(board).wf(),
        final(board).spec_width() == old(board).spec_width(),
        final(board).spec_height() == old(board).spec_height(),
        forall|i: int, j: int|
            old(board).in_bounds(i, j) && room.contains(i, j)
                ==> final(board).tile_at(i, j) == Tile::Floor,
        forall|i: int, j: int|
            old(board).in_bounds(i, j) && !room.contains(i, j)
                ==> final(board).tile_at(i, j) == old(board).tile_at(i, j),
{
    proof {
        board.lemma_dims();
    }
    let y_end: i32 = room.y + room.height;
    let x_end: i32 = room.x + room.width;
    let mut y: i32 = room.y;
    while y < y_end
        invariant
            board.wf(),
            board.spec_width() == old(board).spec_width(),
            board.spec_height() == old(board).spec_height(),
            room.wf(),
            room.contained_in(old(board).spec_width(), old(board).spec_height()),
            room.y <= y <= y_end,
            y_end == room.y + room.height,
            x_end == room.x + room.width,
            forall|i: int, j: int|
                old(board).in_bounds(i, j) && room.contains(i, j) && j < y as int
                    ==> board.tile_at(i, j) == Tile::Floor,
            forall|i: int, j: int|
                old(board).in_bounds(i, j) && !(room.contains(i, j) && j < y as int)
                    ==> board.tile_at(i, j) == old(board).tile_at(i, j),
        decreases y_end - y,
    {
        let ghost bprev = *board;
        carve_row(board, room.x, x_end, y);
        proof {
            assert forall|i: int, j: int|
                old(board).in_bounds(i, j) && !(room.contains(i, j) && j < y as int + 1)
                    implies board.tile_at(i, j) == old(board).tile_at(i, j) by {
                assert(bprev.in_bounds(i, j));
                if j == y as int && room.x as int <= i && i < x_end as int {
                    assert(room.contains(i, j));
                    assert(false);
                }
                assert(board.tile_at(i, j) == bprev.tile_at(i, j));
                assert(bprev.tile_at(i, j) == old(board).tile_at(i, j));
            }
        }
        y = y + 1;
    }
}

/// Whether the candidate's rectangle, grown by `margin`, intersects any
/// already accepted room's equally grown rectangle.
fn overlaps_any(rooms: &Vec<Room>, cand: &Room, margin: i32) -> (r: bool)
    ensures
        r == exists|k: int|
            0 <= k < rooms@.len()
                && (#[trigger] rooms@[k]).spec_overlaps_with_margin(*cand, margin as int),
{
    let mut i: usize = 0;
    while i < rooms.len()
        invariant
            i <= rooms@.len(),
            forall|k: int|
                0 <= k < i as int
                    ==> !(#[trigger] rooms@[k]).spec_overlaps_with_margin(*cand, margin as int),
        decreases rooms@.len() - i,
    {
        if rooms[i].overlaps_with_margin(cand, margin) {
            return true;
        }
        i = i + 1;
    }
    false
}

/// Centres of the rooms, in placement order.
pub open spec fn centres_of(rooms: Seq<Room>) -> Seq<(int, int)> {
    Seq::new(rooms.len(), |k: int| rooms[k].spec_centre())
}

/// Cells that are pairwise joined in a row are pairwise joined outright.
proof fn lemma_chain_connected(b: Board, cs: Seq<(int, int)>, i: int, j: int)
    requires
        forall|k: int| 0 <= k < cs.len() - 1 ==> connected(b, #[trigger] cs[k], cs[k + 1]),
        forall|k: int| 0 <= k < cs.len() ==> passable_at(b, (#[trigger] cs[k]).0, cs[k].1),
        0 <= i < cs.len(),
        0 <= j < cs.len(),
    ensures
        connected(b, cs[i], cs[j]),
    decreases (if i <= j { j - i } else { i - j }),
{
    if i == j {
        lemma_connected_refl(b, cs[i]);
    } else if i < j {
        lemma_chain_connected(b, cs, i, j - 1);
        lemma_connected_trans(b, cs[i], cs[j - 1], cs[j]);
    } else {
        lemma_connected_sym(b, cs[i - 1], cs[i]);
        lemma_chain_connected(b, cs, i - 1, j);
        lemma_connected_trans(b, cs[i], cs[i - 1], cs[j]);
    }
}

/// Generates a level by bounded random room placement followed by corridors
/// between consecutively placed rooms.
///
/// Fails with `InvalidConfig` exactly when a dimension or a minimum room side
/// is non-positive or a minimum exceeds the board. On success every room is
/// carved to floor inside the board with one tile of spacing to the border, no
/// two rooms' grown rectangles intersect, all room centres are joined by
/// passable tiles, and the wall decoration is applied exactly when asked for.
/// Whenever a minimum-size room fits at all, at least one room is produced.
pub fn generate_rooms_corridors(
    width: i32,
    height: i32,
    seed: &str,
    rng: &mut StdRng,
    add_walls: bool,
    min_room_width: i32,
    min_room_height: i32,
) -> (r: Result<Level, DungeonError>)
    requires
        width as int * height as int <= i32::MAX as int,
    ensures
        r is Err <==> !valid_config(
            width as int, height as int, min_room_width as int, min_room_height as int),
        r is Err ==> r == Err::<Level, DungeonError>(DungeonError::InvalidConfig),
        r is Ok ==> {
            let lv = r.unwrap();
            &&& lv.wf()
            &&& lv.width == width
            &&& lv.height == height
            &&& lv.seed@ == seed@
            &&& lv.algorithm == Algorithm::RoomsCorridors
            &&& lv.rooms_ok(min_room_width as int, min_room_height as int, ROOM_MARGIN as int)
            &&& lv.rooms_carved()
            &&& lv.floor_only_in_rooms()
            &&& lv.rooms_disjoint(ROOM_MARGIN as int)
            &&& lv.rooms_connected()
            &&& lv.walls_decorated(add_walls)
            &&& can_host(width as int, height as int, min_room_width as int, min_room_height as int)
                ==> lv.rooms@.len() >= 1
        },
{
    if width <= 0 || height <= 0 || min_room_width <= 0 || min_room_height <= 0
        || min_room_width > width || min_room_height > height {
        return Err(DungeonError::InvalidConfig);
    }
    let mut board = Board::filled(width, height, Tile::Empty);
    let mut rooms: Vec<Room> = Vec::new();

    let hosts = (min_room_width as i64) + 2 <= width as i64
        && (min_room_height as i64) + 2 <= height as i64;
    if hosts {
        // The attempt bound: four tries per room that could fit disjointly,
        // capped so pathological boards stay cheap.
        let t1: i32 = width / (min_room_width + 2);
        let t2: i32 = height / (min_room_height + 2);
        proof {
            assert((t1 as int) * (t2 as int) <= 0x4000_0000_0000_0000
                && (t1 as int) * (t2 as int) >= -0x4000_0000_0000_0000) by (nonlinear_arith)
                requires
                    -0x8000_0000 <= t1 as int <= 0x7fff_ffff,
                    -0x8000_0000 <= t2 as int <= 0x7fff_ffff,
            ;
        }
        let target: i64 = (t1 as i64) * (t2 as i64);
        let capped: i64 = if target < 1 {
            1
        } else if target > 25000 {
            25000
        } else {
            target
        };
        let attempts: i64 = 4 * capped;

        let cap_w: i32 = width - 2;
        let max_w: i32 = if min_room_width > cap_w / 2 { cap_w } else { min_room_width * 2 };
        let cap_h: i32 = height - 2;
        let max_h: i32 = if min_room_height > cap_h / 2 { cap_h } else { min_room_height * 2 };

        let mut attempt: i64 = 0;
        while attempt < attempts
            invariant
                board.wf(),
                board.spec_width() == width as int,
                board.spec_height() == height as int,
                0 < min_room_width,
                0 < min_room_height,
                min_room_width as int <= max_w as int <= width - 2,
                min_room_height as int <= max_h as int <= height - 2,
                0 <= attempt <= attempts,
                attempt >= 1 ==> rooms@.len() >= 1,
                forall|k: int| 0 <= k < rooms@.len() ==> {
                    let rm = #[trigger] rooms@[k];
                    &&& rm.wf()
                    &&& min_room_width as int <= rm.width
                    &&& min_room_height as int <= rm.height
                    &&& rm.contained_with_margin(width as int, height as int, ROOM_MARGIN as int)
                },
                forall|k1: int, k2: int|
                    0 <= k1 < k2 < rooms@.len()
                        ==> !(#[trigger] rooms@[k1]).spec_overlaps_with_margin(
                            #[trigger] rooms@[k2], ROOM_MARGIN as int),
                forall|k: int, i: int, j: int|
                    0 <= k < rooms@.len() && #[trigger] rooms@[k].contains(i, j)
                        && board.in_bounds(i, j)
                        ==> board.tile_at(i, j) == Tile::Floor,
                forall|i: int, j: int|
                    board.in_bounds(i, j) && #[trigger] board.tile_at(i, j) == Tile::Floor
                        ==> exists|k: int|
                            0 <= k < rooms@.len() && (#[trigger] rooms@[k]).contains(i, j),
                forall|i: int, j: int|
                    board.in_bounds(i, j) ==> #[trigger] board.tile_at(i, j) != Tile::Wall,
                forall|i: int, j: int|
                    board.in_bounds(i, j) ==> #[trigger] board.tile_at(i, j) != Tile::Corridor,
            decreases attempts - attempt,
        {
            let w = rand_range(rng, min_room_width, max_w + 1);
            let h = rand_range(rng, min_room_height, max_h + 1);
            let x = rand_range(rng, 1, width - w);
            let y = rand_range(rng, 1, height - h);
            let cand = Room { x, y, width: w, height: h };
            if !overlaps_any(&rooms, &cand, ROOM_MARGIN) {
                let ghost bprev = board;
                let ghost roomsprev = rooms@;
                carve_room(&mut board, cand);
                rooms.push(cand);
                proof {
                    assert forall|i2: int, j2: int|
                        board.in_bounds(i2, j2) && #[trigger] board.tile_at(i2, j2) == Tile::Floor
                            implies exists|k: int|
                                0 <= k < rooms@.len() && (#[trigger] rooms@[k]).contains(i2, j2) by {
                        if cand.contains(i2, j2) {
                            assert(rooms@[rooms@.len() - 1].contains(i2, j2));
                        } else {
                            assert(board.tile_at(i2, j2) == bprev.tile_at(i2, j2));
                            let k0 = choose|k: int|
                                0 <= k < roomsprev.len() && (#[trigger] roomsprev[k]).contains(i2, j2);
                            assert(rooms@[k0].contains(i2, j2));
                        }
                    }
                    assert forall|k: int, i2: int, j2: int|
                        0 <= k < rooms@.len() && #[trigger] rooms@[k].contains(i2, j2)
                            && board.in_bounds(i2, j2)
                            implies board.tile_at(i2, j2) == Tile::Floor by {
                        if k < rooms@.len() - 1 {
                            if !cand.contains(i2, j2) {
                                assert(board.tile_at(i2, j2) == bprev.tile_at(i2, j2));
                            }
                        }
                    }
                    assert forall|i2: int, j2: int| board.in_bounds(i2, j2)
                        implies #[trigger] board.tile_at(i2, j2) != Tile::Wall by {
                        if !cand.contains(i2, j2) {
                            assert(board.tile_at(i2, j2) == bprev.tile_at(i2, j2));
                        }
                    }
                    assert forall|i2: int, j2: int| board.in_bounds(i2, j2)
                        implies #[trigger] board.tile_at(i2, j2) != Tile::Corridor by {
                        if !cand.contains(i2, j2) {
                            assert(board.tile_at(i2, j2) == bprev.tile_at(i2, j2));
                        }
                    }
                }
            }
            attempt = attempt + 1;
        }
    }

    // Corridors between consecutively placed rooms.
    let mut i: usize = 1;
    while i < rooms.len()
        invariant
            board.wf(),
            board.spec_width() == width as int,
            board.spec_height() == height as int,
            0 < width,
            0 < height,
            i >= 1,
            forall|k: int| 0 <= k < rooms@.len() ==> {
                let rm = #[trigger] rooms@[k];
                &&& rm.wf()
                &&& min_room_width as int <= rm.width
                &&& min_room_height as int <= rm.height
                &&& rm.contained_with_margin(width as int, height as int, ROOM_MARGIN as int)
            },
            forall|k: int, i2: int, j2: int|
                0 <= k < rooms@.len() && #[trigger] rooms@[k].contains(i2, j2)
                    && board.in_bounds(i2, j2)
                    ==> board.tile_at(i2, j2) == Tile::Floor,
            forall|i2: int, j2: int|
                board.in_bounds(i2, j2) && #[trigger] board.tile_at(i2, j2) == Tile::Floor
                    ==> exists|k: int|
                        0 <= k < rooms@.len() && (#[trigger] rooms@[k]).contains(i2, j2),
            forall|i2: int, j2: int|
                board.in_bounds(i2, j2) ==> #[trigger] board.tile_at(i2, j2) != Tile::Wall,
            forall|k: int|
                0 <= k < i as int - 1 && k + 1 < rooms@.len()
                    ==> connected(board, #[trigger] centres_of(rooms@)[k], centres_of(rooms@)[k + 1]),
        decreases rooms@.len() - i,
    {
        proof {
            board.lemma_dims();
            assert(rooms@[i as int - 1].contained_with_margin(width as int, height as int, 1));
        }
        let ca = rooms[i - 1].centre();
        let cb = rooms[i].centre();
        proof {
            assert(rooms@[i as int - 1].contains(ca.0 as int, ca.1 as int));
            assert(rooms@[i as int].contains(cb.0 as int, cb.1 as int));
        }
        let ghost prev = board;
        carve_corridor(&mut board, ca, cb);
        proof {
            assert forall|i2: int, j2: int|
                board.in_bounds(i2, j2) && #[trigger] board.tile_at(i2, j2) == Tile::Floor
                    implies exists|k: int|
                        0 <= k < rooms@.len() && (#[trigger] rooms@[k]).contains(i2, j2) by {
                assert(prev.tile_at(i2, j2) == Tile::Floor);
            }
            assert forall|k: int|
                0 <= k < i as int && k + 1 < rooms@.len()
                    implies connected(board, #[trigger] centres_of(rooms@)[k], centres_of(rooms@)[k + 1]) by {
                if k < i as int - 1 {
                    lemma_connected_monotone(prev, board,
                        centres_of(rooms@)[k], centres_of(rooms@)[k + 1]);
                } else {
                    assert(centres_of(rooms@)[k] == (ca.0 as int, ca.1 as int));
                    assert(centres_of(rooms@)[k + 1] == (cb.0 as int, cb.1 as int));
                }
            }
        }
        i = i + 1;
    }

    // Every pair of room centres is now joined by passable tiles.
    proof {
        assert forall|k: int| 0 <= k < centres_of(rooms@).len()
            implies passable_at(board, (#[trigger] centres_of(rooms@)[k]).0, centres_of(rooms@)[k].1) by {
            let rm = rooms@[k];
            assert(rm.contains(rm.spec_centre().0, rm.spec_centre().1));
            assert(board.in_bounds(rm.spec_centre().0, rm.spec_centre().1));
        }
    }

    if add_walls {
        let ghost pre = board;
        crate::walls::add_wall_border(&mut board);
        proof {
            assert forall|i2: int, j2: int|
                board.in_bounds(i2, j2) && #[trigger] board.tile_at(i2, j2) == Tile::Floor
                    implies exists|k: int|
                        0 <= k < rooms@.len() && (#[trigger] rooms@[k]).contains(i2, j2) by {
                assert(board.tile_at(i2, j2) == crate::walls::decorated(pre, i2, j2));
                assert(pre.tile_at(i2, j2) == Tile::Floor);
            }
            assert forall|i2: int, j2: int| passable_at(pre, i2, j2)
                implies passable_at(board, i2, j2) by {
                assert(board.tile_at(i2, j2) == crate::walls::decorated(pre, i2, j2));
            }
            assert forall|i2: int, j2: int| board.in_bounds(i2, j2)
                implies (#[trigger] board.tile_at(i2, j2)).is_passable()
                    == pre.tile_at(i2, j2).is_passable() by {
                assert(board.tile_at(i2, j2) == crate::walls::decorated(pre, i2, j2));
            }
            assert forall|i2: int, j2: int|
                crate::walls::has_passable_neighbour(pre, i2, j2)
                    == crate::walls::has_passable_neighbour(board, i2, j2) by {
            }
            assert forall|k: int|
                0 <= k < centres_of(rooms@).len() - 1
                    implies connected(board, #[trigger] centres_of(rooms@)[k], centres_of(rooms@)[k + 1]) by {
                lemma_connected_monotone(pre, board,
                    centres_of(rooms@)[k], centres_of(rooms@)[k + 1]);
            }
        }
    }

    let ghost final_board = board;
    let ghost final_rooms = rooms@;
    let level = Level {
        width,
        height,
        seed: String::from_str(seed),
        board,
        rooms,
        algorithm: Algorithm::RoomsCorridors,
    };
    proof {
        assert forall|i2: int, j2: int|
            level.board.in_bounds(i2, j2) && #[trigger] level.board.tile_at(i2, j2) == Tile::Floor
                implies exists|k: int|
                    0 <= k < level.rooms@.len() && (#[trigger] level.rooms@[k]).contains(i2, j2) by {
            assert(final_board.tile_at(i2, j2) == Tile::Floor);
            let k0 = choose|k: int|
                0 <= k < final_rooms.len() && (#[trigger] final_rooms[k]).contains(i2, j2);
            assert(level.rooms@[k0].contains(i2, j2));
        }
        assert forall|k1: int, k2: int|
            0 <= k1 < level.rooms@.len() && 0 <= k2 < level.rooms@.len()
                implies connected(level.board,
                    (#[trigger] level.rooms@[k1]).spec_centre(),
                    (#[trigger] level.rooms@[k2]).spec_centre()) by {
            lemma_chain_connected(level.board, centres_of(level.rooms@), k1, k2);
        }
    }
    Ok(level)
}

} // verus!
