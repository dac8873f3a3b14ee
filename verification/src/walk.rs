//! Walks through a grid, and the reachability and connectivity they define.
//!
//! A walk is a non-empty sequence of open cells, each one orthogonal step from
//! the one before. Diagonal moves are never steps: two open cells that touch
//! only at a corner are not connected by that corner.

use vstd::prelude::*;

use crate::grid::{Coord, Grid, adjacent, count_true, step_dx, step_dy};

verus! {

/// `p` is a walk through the open cells of `g`.
pub open spec fn is_walk(g: Grid, p: Seq<Coord>) -> bool {
    &&& p.len() > 0
    &&& forall|i: int| 0 <= i < p.len() ==> g.open_at(#[trigger] p[i])
    &&& forall|i: int| 0 <= i < p.len() - 1 ==> #[trigger] adjacent(p[i], p[i + 1])
}

/// `p` is a walk through `g` from `a` to `b`.
pub open spec fn walk_between(g: Grid, p: Seq<Coord>, a: Coord, b: Coord) -> bool {
    &&& is_walk(g, p)
    &&& p[0] == a
    &&& p.last() == b
}

/// Some walk through `g` leads from `a` to `b`.
pub open spec fn reachable(g: Grid, a: Coord, b: Coord) -> bool {
    exists|p: Seq<Coord>| #[trigger] walk_between(g, p, a, b)
}

/// Every open cell of `g` can be reached from every other.
pub open spec fn connected(g: Grid) -> bool {
    forall|a: Coord, b: Coord| g.open_at(a) && g.open_at(b) ==> #[trigger] reachable(g, a, b)
}

/// Every open cell of `g` can be reached from `root`.
pub open spec fn all_reach_from(g: Grid, root: Coord) -> bool {
    forall|c: Coord| #[trigger] g.open_at(c) ==> reachable(g, root, c)
}

/// Per storage index, whether that cell can be reached from `start`.
pub open spec fn component_mask(g: Grid, start: Coord) -> Seq<bool> {
    Seq::new(g.size() as nat, |i: int| reachable(g, start, g.coord_of(i)))
}

/// Number of cells that can be reached from `start`.
pub open spec fn component_size(g: Grid, start: Coord) -> nat {
    count_true(component_mask(g, start))
}

/// The `k`th orthogonal neighbour of `c`.
pub open spec fn neighbour(c: Coord, k: int) -> Coord {
    Coord { x: (c.x + step_dx(k)) as i32, y: (c.y + step_dy(k)) as i32 }
}

/// Adjacency is symmetric.
pub proof fn lemma_adjacent_symmetric(a: Coord, b: Coord)
    requires
        adjacent(a, b),
    ensures
        adjacent(b, a),
{
    let k = choose|k: int| 0 <= k < 4 && #[trigger] step_dx(k) == b.x - a.x && step_dy(k) == b.y - a.y;
    let j = if k == 0 {
        1int
    } else if k == 1 {
        0int
    } else if k == 2 {
        3int
    } else {
        2int
    };
    assert(step_dx(j) == a.x - b.x && step_dy(j) == a.y - b.y);
}

/// An open cell lies next to `c` only as one of its four orthogonal
/// neighbours, and each of those is adjacent to it.
pub proof fn lemma_adjacent_is_neighbour(g: Grid, c: Coord, n: Coord)
    requires
        g.wf(),
        g.in_grid(c),
        adjacent(c, n),
    ensures
        exists|k: int| 0 <= k < 4 && n == #[trigger] neighbour(c, k),
{
    let k = choose|k: int| 0 <= k < 4 && #[trigger] step_dx(k) == n.x - c.x && step_dy(k) == n.y - c.y;
    assert(n == neighbour(c, k));
}

/// A neighbour of an in-grid cell is adjacent to it.
pub proof fn lemma_neighbour_adjacent(g: Grid, c: Coord, k: int)
    requires
        g.wf(),
        g.in_grid(c),
        0 <= k < 4,
    ensures
        adjacent(c, neighbour(c, k)),
        neighbour(c, k).x == c.x + step_dx(k),
        neighbour(c, k).y == c.y + step_dy(k),
{
    let (w, h) = (g.spec_width(), g.spec_height());
    assert(w <= w * h && h <= w * h) by (nonlinear_arith)
        requires
            w > 0,
            h > 0,
    ;
    assert(step_dx(k) == neighbour(c, k).x - c.x);
}

/// A walk ends on open cells.
pub proof fn lemma_reachable_open(g: Grid, a: Coord, b: Coord)
    requires
        reachable(g, a, b),
    ensures
        g.open_at(a),
        g.open_at(b),
{
    let p = choose|p: Seq<Coord>| #[trigger] walk_between(g, p, a, b);
    assert(g.open_at(p[0]));
    assert(g.open_at(p[p.len() - 1]));
}

/// An open cell reaches itself without moving.
pub proof fn lemma_reachable_refl(g: Grid, a: Coord)
    requires
        g.open_at(a),
    ensures
        reachable(g, a, a),
{
    assert(walk_between(g, seq![a], a, a));
}

/// A walk to `b` extends by one step onto an open neighbour `c` of `b`.
pub proof fn lemma_reachable_step(g: Grid, a: Coord, b: Coord, c: Coord)
    requires
        reachable(g, a, b),
        adjacent(b, c),
        g.open_at(c),
    ensures
        reachable(g, a, c),
{
    let p = choose|p: Seq<Coord>| #[trigger] walk_between(g, p, a, b);
    let q = p.push(c);
    assert forall|i: int| 0 <= i < q.len() implies g.open_at(#[trigger] q[i]) by {
        if i < p.len() {
            assert(q[i] == p[i]);
        }
    }
    assert forall|i: int| 0 <= i < q.len() - 1 implies #[trigger] adjacent(q[i], q[i + 1]) by {
        if i < p.len() - 1 {
            assert(q[i] == p[i] && q[i + 1] == p[i + 1]);
            assert(adjacent(p[i], p[i + 1]));
        }
    }
    assert(walk_between(g, q, a, c));
}

/// Reachability is symmetric: a walk read backwards is a walk.
pub proof fn lemma_reachable_symmetric(g: Grid, a: Coord, b: Coord)
    requires
        reachable(g, a, b),
    ensures
        reachable(g, b, a),
{
    let p = choose|p: Seq<Coord>| #[trigger] walk_between(g, p, a, b);
    let q = p.reverse();
    assert forall|i: int| 0 <= i < q.len() implies g.open_at(#[trigger] q[i]) by {
        assert(q[i] == p[p.len() - 1 - i]);
    }
    assert forall|i: int| 0 <= i < q.len() - 1 implies #[trigger] adjacent(q[i], q[i + 1]) by {
        let j = p.len() - 2 - i;
        assert(q[i] == p[j + 1] && q[i + 1] == p[j]);
        assert(adjacent(p[j], p[j + 1]));
        lemma_adjacent_symmetric(p[j], p[j + 1]);
    }
    assert(walk_between(g, q, b, a));
}

/// Reachability is transitive: two walks meeting end to start join into one.
pub proof fn lemma_reachable_trans(g: Grid, a: Coord, b: Coord, c: Coord)
    requires
        reachable(g, a, b),
        reachable(g, b, c),
    ensures
        reachable(g, a, c),
{
    let p = choose|p: Seq<Coord>| #[trigger] walk_between(g, p, a, b);
    let q = choose|q: Seq<Coord>| #[trigger] walk_between(g, q, b, c);
    let r = p + q.drop_first();
    assert forall|i: int| 0 <= i < r.len() implies g.open_at(#[trigger] r[i]) by {
        if i < p.len() {
            assert(r[i] == p[i]);
        } else {
            assert(r[i] == q[i - p.len() + 1]);
        }
    }
    assert forall|i: int| 0 <= i < r.len() - 1 implies #[trigger] adjacent(r[i], r[i + 1]) by {
        if i < p.len() - 1 {
            assert(r[i] == p[i] && r[i + 1] == p[i + 1]);
            assert(adjacent(p[i], p[i + 1]));
        } else {
            let j = i - p.len() + 1;
            assert(r[i] == q[j] && r[i + 1] == q[j + 1]);
            assert(adjacent(q[j], q[j + 1]));
        }
    }
    assert(r.last() == q.last());
    assert(walk_between(g, r, a, c));
}

/// Opening cells never breaks a walk: what was reachable stays reachable.
pub proof fn lemma_reachable_monotone(g: Grid, h: Grid, a: Coord, b: Coord)
    requires
        g.opens_into(&h),
        reachable(g, a, b),
    ensures
        reachable(h, a, b),
{
    let p = choose|p: Seq<Coord>| #[trigger] walk_between(g, p, a, b);
    assert forall|i: int| 0 <= i < p.len() implies h.open_at(#[trigger] p[i]) by {
        assert(g.open_at(p[i]));
    }
    assert(walk_between(h, p, a, b));
}

/// If every open cell is reachable from one root, the grid is connected.
pub proof fn lemma_connected_from_root(g: Grid, root: Coord)
    requires
        all_reach_from(g, root),
    ensures
        connected(g),
{
    assert forall|a: Coord, b: Coord| g.open_at(a) && g.open_at(b) implies #[trigger] reachable(
        g,
        a,
        b,
    ) by {
        assert(reachable(g, root, a));
        assert(reachable(g, root, b));
        lemma_reachable_symmetric(g, root, a);
        lemma_reachable_trans(g, a, root, b);
    }
}

/// A set of cells that contains `start` and every open neighbour of each of
/// its open members contains everything reachable from `start`.
pub proof fn lemma_closed_contains_reachable(
    g: Grid,
    mask: Seq<bool>,
    start: Coord,
    p: Seq<Coord>,
)
    requires
        g.wf(),
        mask.len() == g.size(),
        g.in_grid(start),
        mask[g.index_of(start)],
        forall|c: Coord, k: int|
            g.in_grid(c) && mask[g.index_of(c)] && 0 <= k < 4 && #[trigger] g.open_at(
                neighbour(c, k),
            ) ==> mask[g.index_of(neighbour(c, k))],
        is_walk(g, p),
        p[0] == start,
    ensures
        mask[g.index_of(p.last())],
    decreases p.len(),
{
    if p.len() > 1 {
        let q = p.drop_last();
        assert forall|i: int| 0 <= i < q.len() implies g.open_at(#[trigger] q[i]) by {
            assert(q[i] == p[i]);
        }
        assert forall|i: int| 0 <= i < q.len() - 1 implies #[trigger] adjacent(q[i], q[i + 1]) by {
            assert(q[i] == p[i] && q[i + 1] == p[i + 1]);
            assert(adjacent(p[i], p[i + 1]));
        }
        lemma_closed_contains_reachable(g, mask, start, q);
        let i = p.len() - 2;
        let (b, c) = (p[i], p[i + 1]);
        assert(adjacent(b, c));
        assert(g.open_at(b));
        assert(g.open_at(c));
        lemma_adjacent_is_neighbour(g, b, c);
        let k = choose|k: int| 0 <= k < 4 && c == #[trigger] neighbour(b, k);
        assert(g.open_at(neighbour(b, k)));
    }
}

} // verus!
