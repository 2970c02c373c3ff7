//! The binary-space-partitioning generator: the board is split recursively
//! into a tree of regions, every sufficiently large leaf hosts one room, and
//! sibling subtrees are joined bottom-up by corridors between representative
//! rooms.
//!
//! The tree is an arena: nodes are stored in a vector, children before their
//! parent, so every child index is smaller than its parent's. Randomness is
//! drawn in a fixed order: at a split, the orientation coin (only when the
//! region is square and both cuts are possible) and then the cut offset; at a
//! leaf that hosts a room, its width, height, x and y.

use vstd::prelude::*;
use vstd::string::StringExecFns;
use rand::rngs::StdRng;
use crate::{Algorithm, can_host, valid_config};
use crate::board::Board;
use crate::corridor::carve_corridor;
use crate::error::DungeonError;
use crate::level::Level;
use crate::path::{connected, passable_at};
use crate::path::{lemma_connected_monotone, lemma_connected_refl, lemma_connected_sym,
    lemma_connected_trans};
use crate::rng::rand_range;
use crate::room::{Room, ROOM_MARGIN};
use crate::rooms::carve_room;
use crate::tile::Tile;

verus! {

/// A rectangular region of the board: a partition node's extent.
#[derive(Clone, Copy, PartialEq, Eq, Structural, Debug)]
pub struct Rect {
    pub x: i32,
    pub y: i32,
    pub width: i32,
    pub height: i32,
}

impl Rect {
    pub open spec fn wf(self) -> bool {
        0 < self.width && 0 < self.height
    }

    /// The cell `(px, py)` lies inside this region.
    pub open spec fn contains(self, px: int, py: int) -> bool {
        self.x <= px < self.x + self.width && self.y <= py < self.y + self.height
    }

    /// The whole region lies inside a `w` by `h` board.
    pub open spec fn inside(self, w: int, h: int) -> bool {
        0 <= self.x && 0 <= self.y && self.x + self.width <= w && self.y + self.height <= h
    }
}

/// The room lies inside the region with one tile of spacing to its boundary.
pub open spec fn room_in_rect(rm: Room, rect: Rect) -> bool {
    rect.x + 1 <= rm.x && rect.y + 1 <= rm.y
        && rm.x + rm.width + 1 <= rect.x + rect.width
        && rm.y + rm.height + 1 <= rect.y + rect.height
}

/// The two children cut the parent region exactly in two: along a vertical
/// line (side by side) or a horizontal one (stacked), with no gap and no
/// overlap.
pub open spec fn splits_exactly(p: Rect, a: Rect, b: Rect) -> bool {
    a.wf() && b.wf() && (
        (a.x == p.x && a.y == p.y && a.height == p.height
            && b.y == p.y && b.height == p.height
            && b.x == p.x + a.width && a.width + b.width == p.width)
        || (a.x == p.x && a.y == p.y && a.width == p.width
            && b.x == p.x && b.width == p.width
            && b.y == p.y + a.height && a.height + b.height == p.height))
}

/// One node of the partition arena. An internal node has both children (their
/// indices precede its own) and no room; a leaf has neither child and at most
/// one room.
#[derive(Debug)]
pub struct BspNode {
    pub rect: Rect,
    pub left: Option<usize>,
    pub right: Option<usize>,
    pub room: Option<Room>,
}

/// The node at `n` roots a well-formed subtree: children stand at smaller
/// indices, each split is exact, and every leaf room sits inside its leaf.
pub open spec fn wf_node(nodes: Seq<BspNode>, n: int) -> bool
    decreases n,
{
    &&& 0 <= n < nodes.len()
    &&& nodes[n].rect.wf()
    &&& match (nodes[n].left, nodes[n].right) {
        (Some(l), Some(r)) => {
            &&& 0 <= (l as int) && (l as int) < n
            &&& 0 <= (r as int) && (r as int) < n
            &&& wf_node(nodes, l as int)
            &&& wf_node(nodes, r as int)
            &&& splits_exactly(nodes[n].rect, nodes[l as int].rect, nodes[r as int].rect)
            &&& nodes[n].room is None
        },
        (None, None) => match nodes[n].room {
            Some(rm) => rm.wf() && room_in_rect(rm, nodes[n].rect),
            None => true,
        },
        _ => false,
    }
}

/// Every leaf of the subtree at `n` holds a room.
pub open spec fn every_leaf_roomed(nodes: Seq<BspNode>, n: int) -> bool
    decreases n,
{
    &&& 0 <= n < nodes.len()
    &&& match (nodes[n].left, nodes[n].right) {
        (Some(l), Some(r)) => {
            &&& 0 <= (l as int) && (l as int) < n
            &&& 0 <= (r as int) && (r as int) < n
            &&& every_leaf_roomed(nodes, l as int)
            &&& every_leaf_roomed(nodes, r as int)
        },
        (None, None) => nodes[n].room is Some,
        _ => false,
    }
}

/// How many leaves of the subtree at `n` contain the cell `(px, py)`.
pub open spec fn leaf_count(nodes: Seq<BspNode>, n: int, px: int, py: int) -> int
    decreases n,
{
    if 0 <= n < nodes.len() {
        match (nodes[n].left, nodes[n].right) {
            (Some(l), Some(r)) => if 0 <= (l as int) < n && 0 <= (r as int) < n {
                leaf_count(nodes, l as int, px, py) + leaf_count(nodes, r as int, px, py)
            } else {
                0
            },
            (None, None) => if nodes[n].rect.contains(px, py) {
                1
            } else {
                0
            },
            _ => 0,
        }
    } else {
        0
    }
}

/// A well-formed subtree stays well-formed when the arena grows at the end:
/// it only ever looks at indices up to its root's.
pub proof fn lemma_wf_node_grow(s1: Seq<BspNode>, s2: Seq<BspNode>, n: int)
    requires
        wf_node(s1, n),
        s1.len() <= s2.len(),
        forall|k: int| 0 <= k < s1.len() ==> s2[k] == s1[k],
    ensures
        wf_node(s2, n),
    decreases n,
{
    match (s1[n].left, s1[n].right) {
        (Some(l), Some(r)) => {
            lemma_wf_node_grow(s1, s2, l as int);
            lemma_wf_node_grow(s1, s2, r as int);
        },
        _ => {},
    }
}

/// As [`lemma_wf_node_grow`], for the every-leaf-roomed property.
pub proof fn lemma_roomed_grow(s1: Seq<BspNode>, s2: Seq<BspNode>, n: int)
    requires
        every_leaf_roomed(s1, n),
        s1.len() <= s2.len(),
        forall|k: int| 0 <= k < s1.len() ==> s2[k] == s1[k],
    ensures
        every_leaf_roomed(s2, n),
    decreases n,
{
    match (s1[n].left, s1[n].right) {
        (Some(l), Some(r)) => {
            lemma_roomed_grow(s1, s2, l as int);
            lemma_roomed_grow(s1, s2, r as int);
        },
        _ => {},
    }
}

/// The leaf regions of a well-formed subtree tile its root region exactly:
/// a cell inside the root region lies in exactly one leaf, a cell outside it
/// in none.
pub proof fn lemma_leaves_tile(nodes: Seq<BspNode>, n: int, px: int, py: int)
    requires
        wf_node(nodes, n),
    ensures
        leaf_count(nodes, n, px, py) == if nodes[n].rect.contains(px, py) {
            1int
        } else {
            0int
        },
    decreases n,
{
    match (nodes[n].left, nodes[n].right) {
        (Some(l), Some(r)) => {
            lemma_leaves_tile(nodes, l as int, px, py);
            lemma_leaves_tile(nodes, r as int, px, py);
        },
        _ => {},
    }
}

/// The partition tree a BSP generation run builds. The root is the last node.
#[derive(Debug)]
pub struct BspTree {
    pub nodes: Vec<BspNode>,
}

impl BspTree {
    pub open spec fn root(self) -> int {
        self.nodes@.len() - 1
    }

    pub open spec fn wf(self) -> bool {
        self.nodes@.len() >= 1 && wf_node(self.nodes@, self.root())
    }

    pub open spec fn root_rect(self) -> Rect {
        self.nodes@[self.root()].rect
    }
}

/// Law: the leaves of the partition tree tile the board exactly. Every cell
/// of the root region lies in exactly one leaf region, and no cell outside
/// the root region lies in any.
pub proof fn lemma_bsp_leaves_tile(t: BspTree, px: int, py: int)
    requires
        t.wf(),
    ensures
        leaf_count(t.nodes@, t.root(), px, py) == if t.root_rect().contains(px, py) {
            1int
        } else {
            0int
        },
{
    lemma_leaves_tile(t.nodes@, t.root(), px, py);
}

/// Recursively partitions `rect`, carves one room into each sufficiently
/// large leaf, and joins sibling subtrees by a corridor between their
/// representative rooms. Returns the subtree's root index and its
/// representative room, if the subtree produced any room.
#[verifier::rlimit(100)]
fn build(
    nodes: &mut Vec<BspNode>,
    board: &mut Board,
    rooms: &mut Vec<Room>,
    rng: &mut StdRng,
    rect: Rect,
    min_w: i32,
    min_h: i32,
) -> (ret: (usize, Option<Room>))
    requires
        old(board).wf(),
        rect.wf(),
        rect.inside(old(board).spec_width(), old(board).spec_height()),
        0 < min_w,
        0 < min_h,
    ensures
        final(board).wf(),
        final(board).spec_width() == old(board).spec_width(),
        final(board).spec_height() == old(board).spec_height(),
        forall|i: int, j: int|
            old(board).in_bounds(i, j) && old(board).tile_at(i, j).is_passable()
                ==> final(board).tile_at(i, j).is_passable(),
        forall|i: int, j: int|
            old(board).in_bounds(i, j) && old(board).tile_at(i, j) == Tile::Floor
                ==> final(board).tile_at(i, j) == Tile::Floor,
        forall|i: int, j: int|
            old(board).in_bounds(i, j) && old(board).tile_at(i, j) != Tile::Wall
                ==> final(board).tile_at(i, j) != Tile::Wall,
        forall|i: int, j: int|
            old(board).in_bounds(i, j) && #[trigger] final(board).tile_at(i, j) == Tile::Floor
                ==> old(board).tile_at(i, j) == Tile::Floor
                    || exists|k: int|
                        old(rooms)@.len() <= k < final(rooms)@.len()
                            && (#[trigger] final(rooms)@[k]).contains(i, j),
        final(nodes)@.len() > old(nodes)@.len(),
        forall|k: int| 0 <= k < old(nodes)@.len() ==> final(nodes)@[k] == old(nodes)@[k],
        ret.0 as int == final(nodes)@.len() - 1,
        wf_node(final(nodes)@, ret.0 as int),
        final(nodes)@[ret.0 as int].rect == rect,
        can_host(rect.width as int, rect.height as int, min_w as int, min_h as int)
            ==> every_leaf_roomed(final(nodes)@, ret.0 as int),
        final(rooms)@.len() >= old(rooms)@.len(),
        forall|k: int| 0 <= k < old(rooms)@.len() ==> final(rooms)@[k] == old(rooms)@[k],
        forall|k: int| old(rooms)@.len() <= k < final(rooms)@.len() ==> {
            let rm = #[trigger] final(rooms)@[k];
            &&& rm.wf()
            &&& min_w as int <= rm.width
            &&& min_h as int <= rm.height
            &&& room_in_rect(rm, rect)
        },
        forall|k: int, i: int, j: int|
            old(rooms)@.len() <= k < final(rooms)@.len()
                && #[trigger] final(rooms)@[k].contains(i, j)
                && final(board).in_bounds(i, j)
                ==> final(board).tile_at(i, j) == Tile::Floor,
        ret.1 is None ==> final(rooms)@.len() == old(rooms)@.len(),
        ret.1 is Some ==> {
            let rep = ret.1.unwrap();
            &&& exists|k: int|
                old(rooms)@.len() <= k < final(rooms)@.len() && #[trigger] final(rooms)@[k] == rep
            &&& forall|k: int|
                old(rooms)@.len() <= k < final(rooms)@.len()
                    ==> connected(*final(board), (#[trigger] final(rooms)@[k]).spec_centre(),
                        rep.spec_centre())
        },
        can_host(rect.width as int, rect.height as int, min_w as int, min_h as int)
            ==> ret.1 is Some,
    decreases rect.width + rect.height,
{
    proof {
        board.lemma_dims();
    }
    let can_v = rect.width as i64 >= 2 * ((min_w as i64) + 2);
    let can_h = rect.height as i64 >= 2 * ((min_h as i64) + 2);
    if !can_v && !can_h {
        // A leaf region: host a room when one fits with a margin.
        let host = rect.width as i64 >= (min_w as i64) + 2
            && rect.height as i64 >= (min_h as i64) + 2;
        let mut room_opt: Option<Room> = None;
        if host {
            let rw = rand_range(rng, min_w, rect.width - 1);
            let rh = rand_range(rng, min_h, rect.height - 1);
            let rx = rand_range(rng, rect.x + 1, rect.x + rect.width - rw);
            let ry = rand_range(rng, rect.y + 1, rect.y + rect.height - rh);
            let rm = Room { x: rx, y: ry, width: rw, height: rh };
            carve_room(board, rm);
            rooms.push(rm);
            room_opt = Some(rm);
            proof {
                let c = rm.spec_centre();
                crate::room::lemma_centre_in_room(rm);
                assert(passable_at(*board, c.0, c.1));
                lemma_connected_refl(*board, c);
                assert(rooms@[rooms@.len() - 1] == rm);
                assert forall|k: int| old(rooms)@.len() <= k < rooms@.len()
                    implies connected(*board, (#[trigger] rooms@[k]).spec_centre(), c) by {
                    assert(rooms@[k] == rm);
                }
                assert forall|i: int, j: int| old(board).in_bounds(i, j)
                    implies (old(board).tile_at(i, j).is_passable()
                            ==> board.tile_at(i, j).is_passable())
                        && (old(board).tile_at(i, j) == Tile::Floor
                            ==> board.tile_at(i, j) == Tile::Floor)
                        && (old(board).tile_at(i, j) != Tile::Wall
                            ==> board.tile_at(i, j) != Tile::Wall) by {
                    if rm.contains(i, j) {
                    } else {
                    }
                }
                assert forall|i: int, j: int|
                    old(board).in_bounds(i, j) && #[trigger] board.tile_at(i, j) == Tile::Floor
                        implies old(board).tile_at(i, j) == Tile::Floor
                            || exists|k: int|
                                old(rooms)@.len() <= k < rooms@.len()
                                    && (#[trigger] rooms@[k]).contains(i, j) by {
                    if rm.contains(i, j) {
                        assert(rooms@[rooms@.len() - 1].contains(i, j));
                    }
                }
            }
        }
        nodes.push(BspNode { rect, left: None, right: None, room: room_opt });
        let idx = nodes.len() - 1;
        (idx, room_opt)
    } else {
        // Split: orientation by shape, by coin only when square and both cuts
        // are possible; then the cut offset, bounded so both children can
        // still host a minimum room.
        let vertical = if can_v && can_h {
            if rect.width > rect.height {
                true
            } else if rect.height > rect.width {
                false
            } else {
                rand_range(rng, 0, 2) == 0
            }
        } else {
            can_v
        };
        let (ra, rb) = if vertical {
            let c = rand_range(rng, min_w + 2, rect.width - (min_w + 2) + 1);
            (
                Rect { x: rect.x, y: rect.y, width: c, height: rect.height },
                Rect { x: rect.x + c, y: rect.y, width: rect.width - c, height: rect.height },
            )
        } else {
            let c = rand_range(rng, min_h + 2, rect.height - (min_h + 2) + 1);
            (
                Rect { x: rect.x, y: rect.y, width: rect.width, height: c },
                Rect { x: rect.x, y: rect.y + c, width: rect.width, height: rect.height - c },
            )
        };
        let ghost b0 = *board;
        let ghost nodes0 = nodes@;
        let ghost rooms0 = rooms@;
        let (l, lrep) = build(nodes, board, rooms, rng, ra, min_w, min_h);
        let ghost b1 = *board;
        let ghost nodes1 = nodes@;
        let ghost rooms1 = rooms@;
        let (r, rrep) = build(nodes, board, rooms, rng, rb, min_w, min_h);
        let ghost b2 = *board;
        let ghost nodes2 = nodes@;
        let ghost rooms2 = rooms@;

        proof {
            board.lemma_dims();
            if lrep is Some {
                let kl = choose|k: int|
                    rooms0.len() <= k < rooms1.len() && #[trigger] rooms1[k] == lrep.unwrap();
                assert(rooms2[kl] == rooms1[kl]);
                assert(lrep.unwrap().wf() && room_in_rect(lrep.unwrap(), ra));
            }
            if rrep is Some {
                let kr = choose|k: int|
                    rooms1.len() <= k < rooms2.len() && #[trigger] rooms2[k] == rrep.unwrap();
                assert(rrep.unwrap().wf() && room_in_rect(rrep.unwrap(), rb));
            }
        }
        let rep: Option<Room> = match (lrep, rrep) {
            (Some(lr), Some(rr)) => {
                proof {
                    crate::room::lemma_centre_in_room(lr);
                    crate::room::lemma_centre_in_room(rr);
                }
                let cl = lr.centre();
                let cr = rr.centre();
                carve_corridor(board, cl, cr);
                Some(lr)
            },
            (Some(lr), None) => Some(lr),
            (None, Some(rr)) => Some(rr),
            (None, None) => None,
        };
        let ghost b3 = *board;

        nodes.push(BspNode { rect, left: Some(l), right: Some(r), room: None });
        let idx = nodes.len() - 1;

        proof {
            // The arena: both subtrees persist unchanged under later growth.
            lemma_wf_node_grow(nodes1, nodes@, l as int);
            lemma_wf_node_grow(nodes2, nodes@, r as int);
            assert(splits_exactly(rect, nodes@[l as int].rect, nodes@[r as int].rect));
            assert(wf_node(nodes@, idx as int));
            if can_host(rect.width as int, rect.height as int, min_w as int, min_h as int) {
                assert(can_host(ra.width as int, ra.height as int, min_w as int, min_h as int));
                assert(can_host(rb.width as int, rb.height as int, min_w as int, min_h as int));
                lemma_roomed_grow(nodes1, nodes@, l as int);
                lemma_roomed_grow(nodes2, nodes@, r as int);
                assert(every_leaf_roomed(nodes@, idx as int));
            }

            // The board: each stage only ever turns cells to floor or
            // corridor, so passability, floor and freedom from wall tiles
            // carry through all three stages.
            assert forall|i: int, j: int|
                b0.in_bounds(i, j) && b0.tile_at(i, j).is_passable()
                    implies b3.tile_at(i, j).is_passable() by {
                assert(b1.in_bounds(i, j) && b2.in_bounds(i, j));
                assert(b1.tile_at(i, j).is_passable());
                assert(b2.tile_at(i, j).is_passable());
            }
            assert forall|i: int, j: int|
                b0.in_bounds(i, j) && b0.tile_at(i, j) == Tile::Floor
                    implies b3.tile_at(i, j) == Tile::Floor by {
                assert(b1.in_bounds(i, j) && b2.in_bounds(i, j));
                assert(b1.tile_at(i, j) == Tile::Floor);
                assert(b2.tile_at(i, j) == Tile::Floor);
            }
            assert forall|i: int, j: int|
                b0.in_bounds(i, j) && b0.tile_at(i, j) != Tile::Wall
                    implies b3.tile_at(i, j) != Tile::Wall by {
                assert(b1.in_bounds(i, j) && b2.in_bounds(i, j));
                assert(b1.tile_at(i, j) != Tile::Wall);
                assert(b2.tile_at(i, j) != Tile::Wall);
            }
            // Pointwise passability only ever grows, stage over stage.
            assert forall|x: int, y: int| passable_at(b1, x, y) implies passable_at(b2, x, y) by {}
            assert forall|x: int, y: int| passable_at(b2, x, y) implies passable_at(b3, x, y) by {}
            // New floor comes only from the new rooms of either subtree.
            assert forall|i: int, j: int|
                b0.in_bounds(i, j) && #[trigger] b3.tile_at(i, j) == Tile::Floor
                    implies b0.tile_at(i, j) == Tile::Floor
                        || exists|k: int|
                            rooms0.len() <= k < rooms@.len()
                                && (#[trigger] rooms@[k]).contains(i, j) by {
                assert(b2.tile_at(i, j) == Tile::Floor);
                if b1.tile_at(i, j) == Tile::Floor {
                    if b0.tile_at(i, j) != Tile::Floor {
                        let k0 = choose|k: int|
                            rooms0.len() <= k < rooms1.len()
                                && (#[trigger] rooms1[k]).contains(i, j);
                        assert(rooms@[k0].contains(i, j));
                    }
                } else {
                    let k0 = choose|k: int|
                        rooms1.len() <= k < rooms2.len() && (#[trigger] rooms2[k]).contains(i, j);
                    assert(rooms@[k0].contains(i, j));
                }
            }

            // The rooms: the new block is the left block then the right block.
            assert forall|k: int| rooms0.len() <= k < rooms@.len() implies {
                let rm = #[trigger] rooms@[k];
                &&& rm.wf()
                &&& min_w as int <= rm.width
                &&& min_h as int <= rm.height
                &&& room_in_rect(rm, rect)
            } by {
                if k < rooms1.len() {
                    assert(rooms@[k] == rooms1[k]);
                    assert(room_in_rect(rooms1[k], ra));
                } else {
                    assert(room_in_rect(rooms@[k], rb));
                }
            }

            // Every new room's cells are floor in the final board.
            assert forall|k: int, i: int, j: int|
                rooms0.len() <= k < rooms@.len() && #[trigger] rooms@[k].contains(i, j)
                    && b3.in_bounds(i, j)
                    implies b3.tile_at(i, j) == Tile::Floor by {
                if k < rooms1.len() {
                    assert(rooms@[k] == rooms1[k]);
                    assert(b1.tile_at(i, j) == Tile::Floor);
                    assert(b2.tile_at(i, j) == Tile::Floor);
                } else {
                    assert(b2.tile_at(i, j) == Tile::Floor);
                }
            }

            // The representative is one of the new rooms.
            if lrep is Some {
                let kl = choose|k: int|
                    rooms0.len() <= k < rooms1.len() && #[trigger] rooms1[k] == lrep.unwrap();
                assert(rooms@[kl] == lrep.unwrap());
            } else if rrep is Some {
                let kr = choose|k: int|
                    rooms1.len() <= k < rooms2.len() && #[trigger] rooms2[k] == rrep.unwrap();
                assert(rooms@[kr] == rrep.unwrap());
            }

            // Every new room's centre stays connected to the representative.
            if rep is Some {
                let rp = rep.unwrap();
                if lrep is Some && rrep is Some {
                    let cl = lrep.unwrap().spec_centre();
                    let cr = rrep.unwrap().spec_centre();
                    assert(connected(b3, cl, cr));
                    assert forall|k: int| rooms0.len() <= k < rooms@.len()
                        implies connected(b3, (#[trigger] rooms@[k]).spec_centre(), cl) by {
                        if k < rooms1.len() {
                            assert(rooms@[k] == rooms1[k]);
                            assert(connected(b1, rooms1[k].spec_centre(), cl));
                            lemma_connected_monotone(b1, b2, rooms1[k].spec_centre(), cl);
                            lemma_connected_monotone(b2, b3, rooms1[k].spec_centre(), cl);
                        } else {
                            assert(rooms@[k] == rooms2[k]);
                            assert(connected(b2, rooms2[k].spec_centre(), cr));
                            lemma_connected_monotone(b2, b3, rooms2[k].spec_centre(), cr);
                            lemma_connected_sym(b3, cl, cr);
                            lemma_connected_trans(b3, rooms2[k].spec_centre(), cr, cl);
                        }
                    }
                } else if lrep is Some {
                    // The right subtree produced no room, so every new room is
                    // a left one and the board did not change after the left
                    // stage's connections were set up.
                    let cl = lrep.unwrap().spec_centre();
                    assert forall|k: int| rooms0.len() <= k < rooms@.len()
                        implies connected(b3, (#[trigger] rooms@[k]).spec_centre(), cl) by {
                        assert(rooms@[k] == rooms1[k]);
                        assert(connected(b1, rooms1[k].spec_centre(), cl));
                        lemma_connected_monotone(b1, b2, rooms1[k].spec_centre(), cl);
                        lemma_connected_monotone(b2, b3, rooms1[k].spec_centre(), cl);
                    }
                } else {
                    // Only the right subtree produced rooms.
                    let cr = rrep.unwrap().spec_centre();
                    assert(rooms1 == rooms0);
                    assert forall|k: int| rooms0.len() <= k < rooms@.len()
                        implies connected(b3, (#[trigger] rooms@[k]).spec_centre(), cr) by {
                        assert(connected(b2, rooms2[k].spec_centre(), cr));
                        lemma_connected_monotone(b2, b3, rooms2[k].spec_centre(), cr);
                    }
                }
            }
        }
        (idx, rep)
    }
}

/// Generates a level by binary space partitioning and also returns the
/// partition tree, for callers that want to inspect the subdivision.
///
/// Fails with `InvalidConfig` exactly when a dimension or a minimum room side
/// is non-positive or a minimum exceeds the board. On success the tree is
/// well-formed and rooted at the full board region, every room lies inside
/// the board with one tile of spacing to the border and is carved to floor,
/// all room centres are joined by passable tiles, and the wall decoration is
/// applied exactly when asked for. Whenever a minimum-size room fits at all,
/// every leaf hosts a room and at least one room is produced.
pub fn generate_bsp_with_tree(
    width: i32,
    height: i32,
    seed: &str,
    rng: &mut StdRng,
    add_walls: bool,
    min_room_width: i32,
    min_room_height: i32,
) -> (r: Result<(Level, BspTree), DungeonError>)
    requires
        width as int * height as int <= i32::MAX as int,
    ensures
        r is Err <==> !valid_config(
            width as int, height as int, min_room_width as int, min_room_height as int),
        r is Err ==> r == Err::<(Level, BspTree), DungeonError>(DungeonError::InvalidConfig),
        r is Ok ==> {
            let (lv, t) = r.unwrap();
            &&& lv.wf()
            &&& lv.width == width
            &&& lv.height == height
            &&& lv.seed@ == seed@
            &&& lv.algorithm == Algorithm::Bsp
            &&& lv.rooms_ok(min_room_width as int, min_room_height as int, ROOM_MARGIN as int)
            &&& lv.rooms_carved()
            &&& lv.floor_only_in_rooms()
            &&& lv.rooms_connected()
            &&& lv.walls_decorated(add_walls)
            &&& t.wf()
            &&& t.root_rect() == (Rect { x: 0, y: 0, width, height })
            &&& can_host(width as int, height as int, min_room_width as int, min_room_height as int)
                ==> every_leaf_roomed(t.nodes@, t.root()) && lv.rooms@.len() >= 1
        },
{
    if width <= 0 || height <= 0 || min_room_width <= 0 || min_room_height <= 0
        || min_room_width > width || min_room_height > height {
        return Err(DungeonError::InvalidConfig);
    }
    let mut board = Board::filled(width, height, Tile::Empty);
    let ghost blank = board;
    let mut nodes: Vec<BspNode> = Vec::new();
    let mut rooms: Vec<Room> = Vec::new();
    let root_rect = Rect { x: 0, y: 0, width, height };
    let (root, rep) = build(&mut nodes, &mut board, &mut rooms, rng, root_rect,
        min_room_width, min_room_height);
    let ghost carved = board;

    // Every pair of room centres is joined: each is joined to the
    // representative, and joins compose.
    proof {
        if rep is Some {
            let rc = rep.unwrap().spec_centre();
            assert forall|k1: int, k2: int|
                0 <= k1 < rooms@.len() && 0 <= k2 < rooms@.len()
                    implies connected(board, (#[trigger] rooms@[k1]).spec_centre(),
                        (#[trigger] rooms@[k2]).spec_centre()) by {
                lemma_connected_sym(board, rooms@[k2].spec_centre(), rc);
                lemma_connected_trans(board, rooms@[k1].spec_centre(), rc,
                    rooms@[k2].spec_centre());
            }
        } else {
            assert(rooms@.len() == 0);
        }
    }

    if add_walls {
        let ghost pre = board;
        crate::walls::add_wall_border(&mut board);
        proof {
            assert forall|i2: int, j2: int| board.in_bounds(i2, j2)
                implies (#[trigger] board.tile_at(i2, j2)).is_passable()
                    == pre.tile_at(i2, j2).is_passable() by {
                assert(board.tile_at(i2, j2) == crate::walls::decorated(pre, i2, j2));
            }
            assert forall|i2: int, j2: int|
                board.in_bounds(i2, j2) && #[trigger] board.tile_at(i2, j2) == Tile::Floor
                    implies carved.tile_at(i2, j2) == Tile::Floor by {
                assert(board.tile_at(i2, j2) == crate::walls::decorated(pre, i2, j2));
            }
            assert forall|x: int, y: int| passable_at(pre, x, y)
                implies passable_at(board, x, y) by {}
            assert forall|i2: int, j2: int|
                crate::walls::has_passable_neighbour(pre, i2, j2)
                    == crate::walls::has_passable_neighbour(board, i2, j2) by {}
            assert forall|k1: int, k2: int|
                0 <= k1 < rooms@.len() && 0 <= k2 < rooms@.len()
                    implies connected(board, (#[trigger] rooms@[k1]).spec_centre(),
                        (#[trigger] rooms@[k2]).spec_centre()) by {
                lemma_connected_monotone(pre, board, rooms@[k1].spec_centre(),
                    rooms@[k2].spec_centre());
            }
        }
    }

    let ghost final_board = board;
    let ghost final_rooms = rooms@;
    let level = Level {
        width,
        height,
        seed: String::from_str(seed),
        board,
        rooms,
        algorithm: Algorithm::Bsp,
    };
    let tree = BspTree { nodes };
    proof {
        assert forall|i2: int, j2: int|
            level.board.in_bounds(i2, j2) && #[trigger] level.board.tile_at(i2, j2) == Tile::Floor
                implies exists|k: int|
                    0 <= k < level.rooms@.len() && (#[trigger] level.rooms@[k]).contains(i2, j2) by {
            assert(carved.tile_at(i2, j2) == Tile::Floor);
            assert(blank.tile_at(i2, j2) == Tile::Empty);
            let k0 = choose|k: int|
                0 <= k < final_rooms.len() && (#[trigger] final_rooms[k]).contains(i2, j2);
            assert(level.rooms@[k0].contains(i2, j2));
        }
    }
    Ok((level, tree))
}

/// Generates a level by binary space partitioning; the contract of
/// [`generate_bsp_with_tree`], without the tree.
pub fn generate_bsp(
    width: i32,
    height: i32,
    seed: &str,
    rng: &mut StdRng,
    add_walls: bool,
    min_room_width: i32,
    min_room_height: i32,
) -> (r: Result<Level, DungeonError>)
    requires
        width as int * height as int <= i32::MAX as int,
    ensures
        r is Err <==> !valid_config(
            width as int, height as int, min_room_width as int, min_room_height as int),
        r is Err ==> r == Err::<Level, DungeonError>(DungeonError::InvalidConfig),
        r is Ok ==> {
            let lv = r.unwrap();
            &&& lv.wf()
            &&& lv.width == width
            &&& lv.height == height
            &&& lv.seed@ == seed@
            &&& lv.algorithm == Algorithm::Bsp
            &&& lv.rooms_ok(min_room_width as int, min_room_height as int, ROOM_MARGIN as int)
            &&& lv.rooms_carved()
            &&& lv.floor_only_in_rooms()
            &&& lv.rooms_connected()
            &&& lv.walls_decorated(add_walls)
            &&& can_host(width as int, height as int, min_room_width as int, min_room_height as int)
                ==> lv.rooms@.len() >= 1
        },
{
    match generate_bsp_with_tree(width, height, seed, rng, add_walls,
        min_room_width, min_room_height) {
        Ok((level, _tree)) => Ok(level),
        Err(e) => Err(e),
    }
}

} // verus!
