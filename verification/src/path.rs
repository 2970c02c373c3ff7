//! Reachability over the grid: paths of passable tiles under 4-directional
//! movement.

use vstd::prelude::*;
use crate::board::Board;

verus! {

/// The cell `(x, y)` is inside the board and can be walked through.
pub open spec fn passable_at(b: Board, x: int, y: int) -> bool {
    b.in_bounds(x, y) && b.tile_at(x, y).is_passable()
}

/// Two cells touch along an edge (4-neighbourhood).
pub open spec fn adjacent(a: (int, int), c: (int, int)) -> bool {
    (a.0 == c.0 && (a.1 == c.1 + 1 || a.1 + 1 == c.1))
        || (a.1 == c.1 && (a.0 == c.0 + 1 || a.0 + 1 == c.0))
}

/// `p` is a walk over `b`: non-empty, every cell passable, and consecutive
/// cells 4-adjacent.
pub open spec fn is_path(b: Board, p: Seq<(int, int)>) -> bool {
    &&& p.len() >= 1
    &&& forall|k: int| 0 <= k < p.len() ==> passable_at(b, #[trigger] p[k].0, p[k].1)
    &&& forall|k: int| 0 <= k < p.len() - 1 ==> adjacent(#[trigger] p[k], p[k + 1])
}

/// Some walk of passable tiles leads from `a` to `c`.
pub open spec fn connected(b: Board, a: (int, int), c: (int, int)) -> bool {
    exists|p: Seq<(int, int)>| is_path(b, p) && p.first() == a && p.last() == c
}

/// A passable cell is connected to itself.
pub proof fn lemma_connected_refl(b: Board, a: (int, int))
    requires
        passable_at(b, a.0, a.1),
    ensures
        connected(b, a, a),
{
    let p = seq![a];
    assert(is_path(b, p));
    assert(p.first() == a && p.last() == a);
}

/// Connectivity is symmetric: walk the same path backwards.
pub proof fn lemma_connected_sym(b: Board, a: (int, int), c: (int, int))
    requires
        connected(b, a, c),
    ensures
        connected(b, c, a),
{
    let p = choose|p: Seq<(int, int)>| is_path(b, p) && p.first() == a && p.last() == c;
    let q = Seq::new(p.len(), |k: int| p[p.len() - 1 - k]);
    assert(is_path(b, q));
    assert(q.first() == c && q.last() == a);
}

/// Connectivity is transitive: join the two paths at the shared cell.
pub proof fn lemma_connected_trans(b: Board, a: (int, int), c: (int, int), d: (int, int))
    requires
        connected(b, a, c),
        connected(b, c, d),
    ensures
        connected(b, a, d),
{
    let p = choose|p: Seq<(int, int)>| is_path(b, p) && p.first() == a && p.last() == c;
    let q = choose|q: Seq<(int, int)>| is_path(b, q) && q.first() == c && q.last() == d;
    let r = p + q.subrange(1, q.len() as int);
    assert forall|k: int| 0 <= k < r.len() - 1 implies adjacent(#[trigger] r[k], r[k + 1]) by {
        if k < p.len() - 1 {
            assert(r[k] == p[k] && r[k + 1] == p[k + 1]);
        } else if k == p.len() - 1 {
            if q.len() >= 2 {
                assert(r[k] == p[p.len() - 1] && r[k + 1] == q[1]);
                assert(adjacent(q[0], q[1]));
            }
        } else {
            let j = k - p.len() + 1;
            assert(r[k] == q[j] && r[k + 1] == q[j + 1]);
            assert(adjacent(q[j], q[j + 1]));
        }
    }
    assert(is_path(b, r));
    assert(r.first() == a);
    assert(r.last() == d);
}

/// A walk over one board is a walk over any board on which at least the same
/// cells are passable. Carving and decoration only ever grow the passable set,
/// so established connections persist.
pub proof fn lemma_connected_monotone(b1: Board, b2: Board, a: (int, int), c: (int, int))
    requires
        connected(b1, a, c),
        forall|x: int, y: int| passable_at(b1, x, y) ==> passable_at(b2, x, y),
    ensures
        connected(b2, a, c),
{
    let p = choose|p: Seq<(int, int)>| is_path(b1, p) && p.first() == a && p.last() == c;
    assert forall|k: int| 0 <= k < p.len() implies passable_at(b2, #[trigger] p[k].0, p[k].1) by {
        assert(passable_at(b1, p[k].0, p[k].1));
    }
    assert(is_path(b2, p));
}

/// A horizontal run of passable cells connects its two ends.
pub proof fn lemma_h_run_connected(b: Board, x1: int, x2: int, y: int)
    requires
        x1 <= x2,
        forall|x: int| x1 <= x <= x2 ==> passable_at(b, x, y),
    ensures
        connected(b, (x1, y), (x2, y)),
{
    let p = Seq::new((x2 - x1 + 1) as nat, |k: int| (x1 + k, y));
    assert forall|k: int| 0 <= k < p.len() implies passable_at(b, #[trigger] p[k].0, p[k].1) by {
        assert(x1 <= x1 + k <= x2);
    }
    assert(is_path(b, p));
    assert(p.first() == (x1, y) && p.last() == (x2, y));
}

/// A rectangle of passable cells is internally connected: an L-shaped walk
/// inside it joins any two of its cells.
pub proof fn lemma_rect_connected(b: Board, rm: crate::room::Room, p: (int, int), q: (int, int))
    requires
        rm.wf(),
        forall|i: int, j: int| #[trigger] rm.contains(i, j) ==> passable_at(b, i, j),
        rm.contains(p.0, p.1),
        rm.contains(q.0, q.1),
    ensures
        connected(b, p, q),
{
    let elbow = (q.0, p.1);
    assert(rm.contains(elbow.0, elbow.1));
    if p.0 <= q.0 {
        assert forall|x: int| p.0 <= x <= q.0 implies passable_at(b, x, p.1) by {
            assert(rm.contains(x, p.1));
        }
        lemma_h_run_connected(b, p.0, q.0, p.1);
    } else {
        assert forall|x: int| q.0 <= x <= p.0 implies passable_at(b, x, p.1) by {
            assert(rm.contains(x, p.1));
        }
        lemma_h_run_connected(b, q.0, p.0, p.1);
        lemma_connected_sym(b, elbow, p);
    }
    if p.1 <= q.1 {
        assert forall|y: int| p.1 <= y <= q.1 implies passable_at(b, q.0, y) by {
            assert(rm.contains(q.0, y));
        }
        lemma_v_run_connected(b, q.0, p.1, q.1);
    } else {
        assert forall|y: int| q.1 <= y <= p.1 implies passable_at(b, q.0, y) by {
            assert(rm.contains(q.0, y));
        }
        lemma_v_run_connected(b, q.0, q.1, p.1);
        lemma_connected_sym(b, q, elbow);
    }
    lemma_connected_trans(b, p, elbow, q);
}

/// A vertical run of passable cells connects its two ends.
pub proof fn lemma_v_run_connected(b: Board, x: int, y1: int, y2: int)
    requires
        y1 <= y2,
        forall|y: int| y1 <= y <= y2 ==> passable_at(b, x, y),
    ensures
        connected(b, (x, y1), (x, y2)),
{
    let p = Seq::new((y2 - y1 + 1) as nat, |k: int| (x, y1 + k));
    assert forall|k: int| 0 <= k < p.len() implies passable_at(b, #[trigger] p[k].0, p[k].1) by {
        assert(y1 <= y1 + k <= y2);
    }
    assert(is_path(b, p));
    assert(p.first() == (x, y1) && p.last() == (x, y2));
}

} // verus!
