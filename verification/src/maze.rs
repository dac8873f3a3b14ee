//! Procedural maze generation.
//!
//! Generation runs in two passes. First a recursive backtracker carves a
//! perfect maze on the odd cells of the grid, which is what makes the border
//! ring and the wall between every pair of corridors fall out for free. Then a
//! thinning pass removes walls at random until the requested number of interior
//! walls is left.
//!
//! # The connectivity invariant
//!
//! Every open cell must be reachable from every other. The carve establishes
//! that, and thinning preserves it by construction: a wall is only opened if
//! it already has an open orthogonal neighbour, so the cell it becomes joins
//! the one existing component. [`generate`] states the result as part of its
//! contract.

use vstd::prelude::*;

use crate::grid::{
    Cell, Coord, Grid, adjacent, cells_listed, count_true, lemma_count_true_all, lemma_count_true_bound,
    lemma_count_true_mark,
    lemma_count_true_none, step_dx, step_dy, unmarked,
};
use crate::random::{Draw, Draws, drawn_index, drawn_range, random_i32, random_index, seeded, shuffle, shuffled};
use crate::walk::{
    all_reach_from, connected, lemma_connected_from_root, lemma_reachable_monotone,
    lemma_reachable_refl, lemma_reachable_step, reachable,
};

verus! {

/// Smallest maze the carve can produce: a border ring around a single cell.
pub const MIN_SPAN: i32 = 3;

/// The span a request for `span` cells is generated at.
pub open spec fn spec_span(span: i32) -> int {
    let m = if span < MIN_SPAN {
        MIN_SPAN as int
    } else {
        span as int
    };
    if m % 2 == 0 {
        m + 1
    } else {
        m
    }
}

/// Rounds a requested span up to one the carve can work with: at least
/// [`MIN_SPAN`], and odd.
///
/// The carve treats odd coordinates as corridor cells and even ones as the
/// walls between them, so an even span would put a corridor against the outer
/// edge and leave the maze open to the void. Rounding up means a caller's size
/// is a floor rather than a hint.
pub fn normalized_span(span: i32) -> (r: i32)
    ensures
        r == spec_span(span),
        r >= MIN_SPAN,
        r % 2 == 1,
        r >= span,
{
    let m = if span < MIN_SPAN {
        MIN_SPAN
    } else {
        span
    };
    assert(m % 2 == 0 ==> m | 1 == m + 1) by (bit_vector)
        requires
            m >= 3,
    ;
    assert(m % 2 == 1 ==> m | 1 == m) by (bit_vector)
        requires
            m >= 3,
    ;
    m | 1
}

/// True if `c` is inside `g` and off its outermost ring.
pub open spec fn interior(g: Grid, c: Coord) -> bool {
    1 <= c.x < g.spec_width() - 1 && 1 <= c.y < g.spec_height() - 1
}

/// Per storage index, whether that cell is an interior wall.
pub open spec fn interior_wall_mask(g: Grid) -> Seq<bool> {
    Seq::new(
        g.size() as nat,
        |i: int| interior(g, g.coord_of(i)) && !g.open_at(g.coord_of(i)),
    )
}

/// Number of interior cells that are wall.
pub open spec fn interior_wall_total(g: Grid) -> nat {
    count_true(interior_wall_mask(g))
}

/// True if no interior wall of `g` has an open orthogonal neighbour: no wall
/// can be opened without cutting a new component off from the rest.
pub open spec fn no_wall_can_open(g: Grid) -> bool {
    forall|c: Coord, n: Coord|
        interior(g, c) && !g.open_at(c) && #[trigger] adjacent(c, n) ==> !g.open_at(n)
}

/// Number of interior walls in a perfect maze of `w` by `h` cells: every
/// interior cell but the one per corridor node and the one per tree edge
/// between them.
pub open spec fn perfect_walls(w: int, h: int) -> int {
    (w - 2) * (h - 2) - (2 * (((w - 1) / 2) * ((h - 1) / 2)) - 1)
}

/// Per storage index, whether that cell is interior.
spec fn interior_mask(g: Grid) -> Seq<bool> {
    Seq::new(g.size() as nat, |i: int| interior(g, g.coord_of(i)))
}

/// Counts add up over a concatenation.
proof fn lemma_count_true_append(a: Seq<bool>, b: Seq<bool>)
    ensures
        count_true(a + b) == count_true(a) + count_true(b),
    decreases b.len(),
{
    if b.len() == 0 {
        assert(a + b =~= a);
    } else {
        assert((a + b).drop_last() =~= a + b.drop_last());
        lemma_count_true_append(a, b.drop_last());
    }
}

/// `u` marks exactly the entries that one of `a` and `b` marks, and no entry
/// is marked by both.
spec fn disjoint_union(a: Seq<bool>, b: Seq<bool>, u: Seq<bool>) -> bool {
    &&& a.len() == u.len()
    &&& b.len() == u.len()
    &&& forall|i: int| 0 <= i < u.len() ==> (#[trigger] u[i] <==> a[i] || b[i])
    &&& forall|i: int| 0 <= i < u.len() ==> !(#[trigger] a[i] && b[i])
}

/// Counts add up over two masks that never mark the same entry.
proof fn lemma_count_true_disjoint(a: Seq<bool>, b: Seq<bool>, u: Seq<bool>)
    requires
        disjoint_union(a, b, u),
    ensures
        count_true(u) == count_true(a) + count_true(b),
    decreases u.len(),
{
    if u.len() > 0 {
        assert(disjoint_union(a.drop_last(), b.drop_last(), u.drop_last()));
        lemma_count_true_disjoint(a.drop_last(), b.drop_last(), u.drop_last());
    }
}

/// A window `lo..hi` of `0..n` counts its width.
proof fn lemma_count_true_window(n: int, lo: int, hi: int)
    requires
        0 <= lo <= hi <= n,
    ensures
        count_true(Seq::new(n as nat, |x: int| lo <= x < hi)) == hi - lo,
    decreases n,
{
    let s = Seq::new(n as nat, |x: int| lo <= x < hi);
    if lo == hi {
        lemma_count_true_none(s);
    } else if hi == n {
        assert(s.drop_last() =~= Seq::new((n - 1) as nat, |x: int| lo <= x < n - 1));
        lemma_count_true_window(n - 1, lo, n - 1);
    } else {
        assert(s.drop_last() =~= Seq::new((n - 1) as nat, |x: int| lo <= x < hi));
        lemma_count_true_window(n - 1, lo, hi);
    }
}

/// Number of interior rows among the first `y` rows of a grid `h` rows high.
spec fn interior_rows_below(y: int, h: int) -> int {
    if y <= 1 {
        0
    } else if y >= h - 1 {
        h - 2
    } else {
        y - 1
    }
}

/// The interior cells among the first `y` rows of `g`.
proof fn lemma_interior_rows(g: Grid, y: int)
    requires
        g.wf(),
        g.spec_width() >= 3,
        g.spec_height() >= 3,
        0 <= y <= g.spec_height(),
    ensures
        0 <= y * g.spec_width() <= g.size(),
        count_true(interior_mask(g).take(y * g.spec_width())) == (g.spec_width() - 2)
            * interior_rows_below(y, g.spec_height()),
    decreases y,
{
    let (w, h) = (g.spec_width(), g.spec_height());
    let mask = interior_mask(g);
    assert(0 <= y * w <= w * h) by (nonlinear_arith)
        requires
            0 <= y <= h,
            w > 0,
    ;
    if y == 0 {
        assert(y * w == 0) by (nonlinear_arith)
            requires
                y == 0,
        ;
        assert(mask.take(0) =~= Seq::<bool>::empty());
    } else {
        let y0 = y - 1;
        lemma_interior_rows(g, y0);
        assert(y0 * w + w == y * w) by (nonlinear_arith)
            requires
                y0 == y - 1,
        ;
        let row = mask.subrange(y0 * w, y * w);
        assert(mask.take(y * w) =~= mask.take(y0 * w) + row);
        let inside = 1 <= y0 < h - 1;
        assert forall|x: int| 0 <= x < w implies #[trigger] row[x] == (inside && 1 <= x < w - 1) by {
            g.lemma_index(x, y0);
            assert(g.index_xy(x, y0) == y0 * w + x);
        }
        if inside {
            assert(row =~= Seq::new(w as nat, |x: int| 1 <= x < w - 1));
            lemma_count_true_window(w, 1, w - 1);
        } else {
            lemma_count_true_none(row);
        }
        lemma_count_true_append(mask.take(y0 * w), row);
        assert(count_true(row) == if inside {
            w - 2
        } else {
            0
        });
        assert(count_true(mask.take(y * w)) == count_true(mask.take(y0 * w)) + count_true(row));
        let (r0, r1) = (interior_rows_below(y0, h), interior_rows_below(y, h));
        assert(r1 == r0 + if inside {
            1int
        } else {
            0int
        });
        assert((w - 2) * r1 == (w - 2) * r0 + if inside {
            w - 2
        } else {
            0
        }) by (nonlinear_arith)
            requires
                r1 == r0 + if inside {
                    1int
                } else {
                    0int
                },
        ;
        assert(count_true(mask.take(y * w)) == (w - 2) * r1);
    }
}

/// Every interior cell of `g` is either an interior wall or open, so where
/// every open cell is interior the walls and the open cells add up to the
/// whole interior.
proof fn lemma_walls_and_open(g: Grid)
    requires
        g.wf(),
        g.spec_width() >= 3,
        g.spec_height() >= 3,
        forall|c: Coord| #[trigger] g.open_at(c) ==> interior(g, c),
    ensures
        interior_wall_total(g) + g.open_total() == (g.spec_width() - 2) * (g.spec_height() - 2),
{
    let (w, h) = (g.spec_width(), g.spec_height());
    let mask = interior_mask(g);
    lemma_interior_rows(g, h);
    assert(h * w == w * h) by (nonlinear_arith);
    assert(mask.take(h * w) =~= mask);
    let walls = interior_wall_mask(g);
    let opened = g.open_mask();
    assert forall|i: int|
        #![trigger mask[i]]
        #![trigger walls[i]]
        #![trigger opened[i]]
        0 <= i < mask.len() implies (mask[i] <==> walls[i] || opened[i]) && !(walls[i] && opened[i]) by {
        g.lemma_coord(i);
        g.lemma_open_mask(g.coord_of(i));
        assert(opened[i] == g.open_at(g.coord_of(i)));
        assert(walls[i] == (interior(g, g.coord_of(i)) && !g.open_at(g.coord_of(i))));
        assert(mask[i] == interior(g, g.coord_of(i)));
    }
    assert(disjoint_union(walls, opened, mask));
    lemma_count_true_disjoint(walls, opened, mask);
}

/// The grid cell of lattice node `node`.
pub open spec fn node_cell(node: Coord) -> Coord {
    Coord { x: (2 * node.x + 1) as i32, y: (2 * node.y + 1) as i32 }
}

/// Row-major index arithmetic for a `w` by `h` array.
proof fn lemma_row_major(w: int, h: int, x: int, y: int, x2: int, y2: int)
    requires
        0 <= x < w,
        0 <= y < h,
        0 <= x2 < w,
        0 <= y2 < h,
    ensures
        0 <= y * w + x < w * h,
        y * w + x == y2 * w + x2 ==> x == x2 && y == y2,
{
    assert(0 <= y * w + x < w * h) by (nonlinear_arith)
        requires
            0 <= x < w,
            0 <= y < h,
    ;
    if y * w + x == y2 * w + x2 {
        assert(x == x2 && y == y2) by (nonlinear_arith)
            requires
                0 <= x < w,
                0 <= x2 < w,
                y * w + x == y2 * w + x2,
        ;
    }
}

/// Opening one cell beside an open cell keeps every open cell reachable from
/// the root.
proof fn lemma_opening_keeps_reach(before: Grid, after: Grid, root: Coord, opened: Coord, via: Coord)
    requires
        all_reach_from(before, root),
        before.opens_into(&after),
        forall|c: Coord| #[trigger] after.open_at(c) ==> before.open_at(c) || c == opened,
        before.open_at(via),
        adjacent(via, opened),
        after.open_at(opened),
    ensures
        all_reach_from(after, root),
{
    assert forall|c: Coord| #[trigger] after.open_at(c) implies reachable(after, root, c) by {
        if before.open_at(c) {
            lemma_reachable_monotone(before, after, root, c);
        } else {
            lemma_reachable_monotone(before, after, root, via);
            lemma_reachable_step(after, root, via, opened);
        }
    }
}

/// Number of nodes of the corridor lattice of `g`: one per odd-coordinate cell.
pub open spec fn lattice_nodes(g: Grid) -> int {
    ((g.spec_width() - 1) / 2) * ((g.spec_height() - 1) / 2)
}

/// `n` is a node of an `nx` by `ny` lattice.
pub open spec fn in_lattice(n: Coord, nx: int, ny: int) -> bool {
    0 <= n.x < nx && 0 <= n.y < ny
}

/// Lattice node `n` is marked in `visited`.
spec fn vis(visited: Seq<bool>, nx: int, n: Coord) -> bool {
    visited[n.y * nx + n.x]
}

/// `c` is the grid cell of lattice node `n`.
spec fn node_at(n: Coord, c: Coord) -> bool {
    c.x == 2 * n.x + 1 && c.y == 2 * n.y + 1
}

/// `c` is the grid cell between lattice nodes `a` and `b`.
spec fn edge_at(a: Coord, b: Coord, c: Coord) -> bool {
    c.x == a.x + b.x + 1 && c.y == a.y + b.y + 1
}

/// `c` is the cell of a visited node, or the cell between two visited
/// adjacent nodes: the only cells the carve opens.
spec fn carved(c: Coord, visited: Seq<bool>, nx: int, ny: int) -> bool {
    ||| exists|n: Coord| #[trigger] node_at(n, c) && in_lattice(n, nx, ny) && vis(visited, nx, n)
    ||| exists|a: Coord, b: Coord|
        #[trigger] edge_at(a, b, c) && in_lattice(a, nx, ny) && in_lattice(b, nx, ny) && adjacent(a, b)
            && vis(visited, nx, a) && vis(visited, nx, b)
}

/// `c` lies on a corridor row or column: at least one coordinate is odd.
/// A cell with both coordinates even sits between four corridors and is
/// always wall in a perfect maze.
pub open spec fn on_corridor(c: Coord) -> bool {
    c.x % 2 == 1 || c.y % 2 == 1
}

/// Every cell the carve opens lies on a corridor.
proof fn lemma_carved_on_corridor(c: Coord, visited: Seq<bool>, nx: int, ny: int)
    requires
        carved(c, visited, nx, ny),
    ensures
        on_corridor(c),
{
    if exists|n: Coord| #[trigger] node_at(n, c) && in_lattice(n, nx, ny) && vis(visited, nx, n) {
        let n = choose|n: Coord| #[trigger] node_at(n, c) && in_lattice(n, nx, ny) && vis(visited, nx, n);
        assert(c.x == 2 * n.x + 1);
    } else {
        let (a, b) = choose|a: Coord, b: Coord|
            #[trigger] edge_at(a, b, c) && in_lattice(a, nx, ny) && in_lattice(b, nx, ny) && adjacent(a, b)
                && vis(visited, nx, a) && vis(visited, nx, b);
        let k = choose|k: int| 0 <= k < 4 && #[trigger] step_dx(k) == b.x - a.x && step_dy(k) == b.y - a.y;
        if k < 2 {
            assert(c.y == 2 * a.y + 1);
        } else {
            assert(c.x == 2 * a.x + 1);
        }
    }
}

/// The two cells a step from visited `node` to unvisited `next` opens were
/// not carved before.
proof fn lemma_fresh_cells(visited: Seq<bool>, nx: int, ny: int, node: Coord, next: Coord, edge: Coord, there: Coord)
    requires
        in_lattice(node, nx, ny),
        in_lattice(next, nx, ny),
        adjacent(node, next),
        !vis(visited, nx, next),
        edge_at(node, next, edge),
        node_at(next, there),
    ensures
        !carved(edge, visited, nx, ny),
        !carved(there, visited, nx, ny),
{
    let k = choose|k: int| 0 <= k < 4 && #[trigger] step_dx(k) == next.x - node.x && step_dy(k) == next.y - node.y;
    if exists|n: Coord| #[trigger] node_at(n, there) && in_lattice(n, nx, ny) && vis(visited, nx, n) {
        let n = choose|n: Coord| #[trigger] node_at(n, there) && in_lattice(n, nx, ny) && vis(visited, nx, n);
        assert(n == next);
    }
    if exists|a: Coord, b: Coord|
        #[trigger] edge_at(a, b, there) && in_lattice(a, nx, ny) && in_lattice(b, nx, ny) && adjacent(a, b)
            && vis(visited, nx, a) && vis(visited, nx, b) {
        let (a, b) = choose|a: Coord, b: Coord|
            #[trigger] edge_at(a, b, there) && in_lattice(a, nx, ny) && in_lattice(b, nx, ny) && adjacent(a, b)
                && vis(visited, nx, a) && vis(visited, nx, b);
        let j = choose|j: int| 0 <= j < 4 && #[trigger] step_dx(j) == b.x - a.x && step_dy(j) == b.y - a.y;
    }
    if exists|n: Coord| #[trigger] node_at(n, edge) && in_lattice(n, nx, ny) && vis(visited, nx, n) {
        let n = choose|n: Coord| #[trigger] node_at(n, edge) && in_lattice(n, nx, ny) && vis(visited, nx, n);
    }
    if exists|a: Coord, b: Coord|
        #[trigger] edge_at(a, b, edge) && in_lattice(a, nx, ny) && in_lattice(b, nx, ny) && adjacent(a, b)
            && vis(visited, nx, a) && vis(visited, nx, b) {
        let (a, b) = choose|a: Coord, b: Coord|
            #[trigger] edge_at(a, b, edge) && in_lattice(a, nx, ny) && in_lattice(b, nx, ny) && adjacent(a, b)
                && vis(visited, nx, a) && vis(visited, nx, b);
        let j = choose|j: int| 0 <= j < 4 && #[trigger] step_dx(j) == b.x - a.x && step_dy(j) == b.y - a.y;
        assert(a == next || b == next);
    }
}

/// A set of lattice nodes closed under lattice steps, holding one node,
/// holds the whole lattice.
proof fn lemma_lattice_filled(visited: Seq<bool>, nx: int, ny: int, start: Coord)
    requires
        1 <= nx,
        1 <= ny,
        in_lattice(start, nx, ny),
        vis(visited, nx, start),
        nx * ny <= i32::MAX,
        forall|n: Coord, k: int|
            in_lattice(n, nx, ny) && 0 <= k < 4 && vis(visited, nx, n) && #[trigger] in_lattice(
                crate::walk::neighbour(n, k),
                nx,
                ny,
            ) ==> vis(visited, nx, crate::walk::neighbour(n, k)),
    ensures
        forall|n: Coord| #[trigger] in_lattice(n, nx, ny) ==> vis(visited, nx, n),
{
    assert(nx <= nx * ny && ny <= nx * ny) by (nonlinear_arith)
        requires
            nx >= 1,
            ny >= 1,
    ;
    assert forall|t: Coord| #[trigger] in_lattice(t, nx, ny) implies vis(visited, nx, t) by {
        let mid = Coord { x: t.x, y: start.y };
        lemma_lattice_slide(visited, nx, ny, start, t.x as int, true);
        lemma_lattice_slide(visited, nx, ny, mid, t.y as int, false);
        assert(Coord { x: mid.x, y: t.y } == t);
    }
}

/// Distance between two integers.
spec fn gap(a: int, b: int) -> int {
    if a >= b {
        a - b
    } else {
        b - a
    }
}

/// From a marked node, a closed set reaches along its row (or column) to
/// coordinate `to`.
proof fn lemma_lattice_slide(visited: Seq<bool>, nx: int, ny: int, from: Coord, to: int, along_x: bool)
    requires
        in_lattice(from, nx, ny),
        vis(visited, nx, from),
        along_x ==> 0 <= to < nx,
        !along_x ==> 0 <= to < ny,
        nx <= i32::MAX,
        ny <= i32::MAX,
        forall|n: Coord, k: int|
            in_lattice(n, nx, ny) && 0 <= k < 4 && vis(visited, nx, n) && #[trigger] in_lattice(
                crate::walk::neighbour(n, k),
                nx,
                ny,
            ) ==> vis(visited, nx, crate::walk::neighbour(n, k)),
    ensures
        along_x ==> vis(visited, nx, Coord { x: to as i32, y: from.y }),
        !along_x ==> vis(visited, nx, Coord { x: from.x, y: to as i32 }),
    decreases if along_x {
        gap(from.x as int, to)
    } else {
        gap(from.y as int, to)
    },
{
    let here = if along_x {
        from.x as int
    } else {
        from.y as int
    };
    if here != to {
        let k: int = if along_x {
            if here < to {
                0
            } else {
                1
            }
        } else {
            if here < to {
                2
            } else {
                3
            }
        };
        let next = crate::walk::neighbour(from, k);
        assert(in_lattice(next, nx, ny));
        lemma_lattice_slide(visited, nx, ny, next, to, along_x);
    } else {
        if along_x {
            assert(Coord { x: to as i32, y: from.y } == from);
        } else {
            assert(Coord { x: from.x, y: to as i32 } == from);
        }
    }
}

/// A carve in progress: the cells of the grid, which lattice nodes are
/// visited, the backtracking stack of nodes, and the draws made so far.
pub type CarveState = (Seq<Cell>, Seq<bool>, Seq<Coord>, Seq<Draw>);

/// Storage index of `c` in a grid `w` wide.
pub open spec fn at_index(w: int, c: Coord) -> int {
    c.y * w + c.x
}

/// The directions (among the first `k` orthogonal steps, in order) from
/// lattice node `node` to an unvisited node of the `nx` by `ny` lattice.
pub open spec fn carve_options(visited: Seq<bool>, nx: int, ny: int, node: Coord, k: int) -> Seq<usize>
    decreases k,
{
    if k <= 0 {
        Seq::empty()
    } else {
        let p = carve_options(visited, nx, ny, node, k - 1);
        let m = crate::walk::neighbour(node, k - 1);
        if 0 <= m.x < nx && 0 <= m.y < ny && !visited[at_index(nx, m)] {
            p.push((k - 1) as usize)
        } else {
            p
        }
    }
}

/// The carve before its first step: a random start node, visited, whose cell
/// is opened, alone on the stack.
pub open spec fn carve_start(w: int, nx: int, ny: int, seed: u64, cells: Seq<Cell>, made: Seq<Draw>) -> CarveState {
    let sx = drawn_range(seed, made, 0, nx as i32);
    let m1 = made.push(Draw::Range(0, nx as i32));
    let sy = drawn_range(seed, m1, 0, ny as i32);
    let start = Coord { x: sx, y: sy };
    (
        cells.update(at_index(w, node_cell(start)), Cell::Open),
        Seq::new((nx * ny) as nat, |i: int| false).update(at_index(nx, start), true),
        seq![start],
        m1.push(Draw::Range(0, ny as i32)),
    )
}

/// One step of the carve: from the node on top of the stack, step to a
/// randomly drawn unvisited neighbour, opening the cell between and the
/// neighbour's own; or, with none left, backtrack.
pub open spec fn carve_step(w: int, nx: int, ny: int, seed: u64, st: CarveState) -> CarveState {
    let node = st.2.last();
    let options = carve_options(st.1, nx, ny, node, 4);
    if options.len() == 0 {
        (st.0, st.1, st.2.drop_last(), st.3)
    } else {
        let choice = options[drawn_index(seed, st.3, options.len() as usize) as int] as int;
        let next = crate::walk::neighbour(node, choice);
        let here = node_cell(node);
        let edge = Coord { x: (here.x + step_dx(choice)) as i32, y: (here.y + step_dy(choice)) as i32 };
        (
            st.0.update(at_index(w, edge), Cell::Open).update(at_index(w, node_cell(next)), Cell::Open),
            st.1.update(at_index(nx, next), true),
            st.2.push(next),
            st.3.push(Draw::Index(options.len() as usize)),
        )
    }
}

/// The carve after `k` steps; a finished carve stays as it is.
pub open spec fn carve_after(
    w: int,
    nx: int,
    ny: int,
    seed: u64,
    cells: Seq<Cell>,
    made: Seq<Draw>,
    k: nat,
) -> CarveState
    decreases k,
{
    if k == 0 {
        carve_start(w, nx, ny, seed, cells, made)
    } else {
        let p = carve_after(w, nx, ny, seed, cells, made, (k - 1) as nat);
        if p.2.len() == 0 {
            p
        } else {
            carve_step(w, nx, ny, seed, p)
        }
    }
}

/// What the carve of a grid `w` wide holding `cells` leaves, with a
/// generator seeded with `seed` after the draws `made`: the carve run until
/// its stack is empty.
pub open spec fn carved_result(w: int, nx: int, ny: int, seed: u64, cells: Seq<Cell>, made: Seq<Draw>) -> CarveState {
    let k = choose|k: nat| (#[trigger] carve_after(w, nx, ny, seed, cells, made, k)).2.len() == 0;
    carve_after(w, nx, ny, seed, cells, made, k)
}

/// A finished carve stays finished, and as it was.
proof fn lemma_carve_stays(w: int, nx: int, ny: int, seed: u64, cells: Seq<Cell>, made: Seq<Draw>, a: nat, b: nat)
    requires
        a <= b,
        carve_after(w, nx, ny, seed, cells, made, a).2.len() == 0,
    ensures
        carve_after(w, nx, ny, seed, cells, made, b) == carve_after(w, nx, ny, seed, cells, made, a),
    decreases b - a,
{
    if b > a {
        lemma_carve_stays(w, nx, ny, seed, cells, made, a, (b - 1) as nat);
    }
}

/// Once the carve has finished after `k` steps, that is its result.
proof fn lemma_carved_result_at(w: int, nx: int, ny: int, seed: u64, cells: Seq<Cell>, made: Seq<Draw>, k: nat)
    requires
        carve_after(w, nx, ny, seed, cells, made, k).2.len() == 0,
    ensures
        carved_result(w, nx, ny, seed, cells, made) == carve_after(w, nx, ny, seed, cells, made, k),
{
    let c = choose|c: nat| (#[trigger] carve_after(w, nx, ny, seed, cells, made, c)).2.len() == 0;
    if c <= k {
        lemma_carve_stays(w, nx, ny, seed, cells, made, c, k);
    } else {
        lemma_carve_stays(w, nx, ny, seed, cells, made, k, c);
    }
}

/// Carves a perfect maze with a recursive backtracker, returning the cell it
/// started from.
///
/// The recursion is an explicit stack, so a large maze cannot overflow the
/// call stack. Corridors live on odd coordinates: lattice node `(i, j)` is
/// grid cell `(2i + 1, 2j + 1)`, and stepping between adjacent nodes opens
/// the single even-coordinate cell between them. Every node is reached, and
/// exactly the cells of a spanning tree over the nodes are opened: one per
/// node and one per tree edge.
fn carve(grid: &mut Grid, rng: &mut Draws) -> (root: Ghost<Coord>)
    requires
        old(grid).wf(),
        old(grid).spec_width() >= MIN_SPAN,
        old(grid).spec_height() >= MIN_SPAN,
        old(grid).spec_width() % 2 == 1,
        old(grid).spec_height() % 2 == 1,
        forall|c: Coord| !#[trigger] old(grid).open_at(c),
    ensures
        final(grid).wf(),
        final(grid).spec_width() == old(grid).spec_width(),
        final(grid).spec_height() == old(grid).spec_height(),
        final(grid).open_at(root@),
        all_reach_from(*final(grid), root@),
        forall|c: Coord| #[trigger] final(grid).open_at(c) ==> interior(*final(grid), c),
        forall|n: Coord|
            #[trigger] in_lattice(n, (final(grid).spec_width() - 1) / 2, (final(grid).spec_height() - 1) / 2)
                ==> final(grid).open_at(node_cell(n)),
        final(grid).open_total() == 2 * lattice_nodes(*final(grid)) - 1,
        forall|c: Coord| #[trigger] final(grid).open_at(c) ==> on_corridor(c),
        final(rng).seed() == old(rng).seed(),
        final(grid).spec_cells() == carved_result(
            old(grid).spec_width(),
            (old(grid).spec_width() - 1) / 2,
            (old(grid).spec_height() - 1) / 2,
            old(rng).seed(),
            old(grid).spec_cells(),
            old(rng).made(),
        ).0,
        final(rng).made() == carved_result(
            old(grid).spec_width(),
            (old(grid).spec_width() - 1) / 2,
            (old(grid).spec_height() - 1) / 2,
            old(rng).seed(),
            old(grid).spec_cells(),
            old(rng).made(),
        ).3,
{
    let ghost (cells0, seed, made0) = (grid.spec_cells(), rng.seed(), rng.made());
    let ghost (w, h) = (grid.spec_width(), grid.spec_height());
    let nodes_x = (grid.width() - 1) / 2;
    let nodes_y = (grid.height() - 1) / 2;
    let ghost (nx, ny) = (nodes_x as int, nodes_y as int);
    proof {
        assert(nodes_x * nodes_y <= w * h) by (nonlinear_arith)
            requires
                1 <= nodes_x < w,
                1 <= nodes_y < h,
        ;
        assert(w <= w * h && h <= w * h) by (nonlinear_arith)
            requires
                w > 0,
                h > 0,
        ;
    }
    let start = Coord::new(random_i32(rng, 0, nodes_x), random_i32(rng, 0, nodes_y));
    let total = (nodes_x * nodes_y) as usize;
    let mut visited = unmarked(total);
    proof {
        lemma_row_major(nx, ny, start.x as int, start.y as int, 0, 0);
    }
    let first = (start.y * nodes_x + start.x) as usize;
    proof {
        lemma_count_true_none(visited@);
        lemma_count_true_mark(visited@, first as int);
    }
    visited.set(first, true);
    let root = Coord::new(2 * start.x + 1, 2 * start.y + 1);
    let ghost blank = *grid;
    proof {
        grid.lemma_open_mask(root);
        assert forall|i: int| 0 <= i < grid.size() implies !#[trigger] grid.open_mask()[i] by {
            grid.lemma_coord(i);
            grid.lemma_open_mask(grid.coord_of(i));
        }
        lemma_count_true_none(grid.open_mask());
    }
    grid.set(root, Cell::Open);
    proof {
        blank.lemma_open_one(*grid, root);
        assert forall|c: Coord| #[trigger] grid.open_at(c) implies reachable(*grid, root, c)
            && interior(*grid, c) && carved(c, visited@, nx, ny) by {
            if c != root {
                assert(!blank.open_at(c));
            }
            lemma_reachable_refl(*grid, root);
            assert(node_at(start, c));
        }
        assert(root == node_cell(start));
        assert forall|n: Coord|
            0 <= n.x < nodes_x && 0 <= n.y < nodes_y && visited@[n.y * nodes_x + n.x]
                implies grid.open_at(#[trigger] node_cell(n)) by {
            lemma_row_major(nx, ny, n.x as int, n.y as int, start.x as int, start.y as int);
        }
    }
    let mut stack: Vec<Coord> = Vec::new();
    stack.push(start);
    let ghost mut rounds: nat = 0;
    proof {
        let st = carve_start(w, nx, ny, seed, cells0, made0);
        assert(visited@ =~= st.1);
        assert(stack@ =~= st.2);
        assert(grid.spec_cells() =~= st.0);
    }
    proof {
        assert forall|n: Coord, k: int|
            in_lattice(n, nx, ny) && 0 <= k < 4 && vis(visited@, nx, n) && !stack@.contains(n)
                && #[trigger] in_lattice(crate::walk::neighbour(n, k), nx, ny) implies vis(
            visited@,
            nx,
            crate::walk::neighbour(n, k),
        ) by {
            lemma_row_major(nx, ny, n.x as int, n.y as int, start.x as int, start.y as int);
            assert(stack@[0] == start);
        }
    }
    while stack.len() > 0
        invariant
            (grid.spec_cells(), visited@, stack@, rng.made()) == carve_after(w, nx, ny, seed, cells0, made0, rounds),
            rng.seed() == seed,
            grid.wf(),
            grid.spec_width() == w == 2 * nodes_x + 1,
            grid.spec_height() == h == 2 * nodes_y + 1,
            nx == nodes_x,
            ny == nodes_y,
            1 <= nodes_x,
            1 <= nodes_y,
            total == nodes_x * nodes_y,
            total <= w * h,
            w * h <= i32::MAX,
            w <= i32::MAX,
            h <= i32::MAX,
            visited@.len() == total,
            count_true(visited@) <= total,
            in_lattice(start, nx, ny),
            vis(visited@, nx, start),
            grid.open_at(root),
            all_reach_from(*grid, root),
            forall|c: Coord| #[trigger] grid.open_at(c) ==> interior(*grid, c),
            forall|c: Coord| #[trigger] grid.open_at(c) ==> carved(c, visited@, nx, ny),
            grid.open_total() + 1 == 2 * count_true(visited@),
            forall|j: int|
                0 <= j < stack@.len() ==> 0 <= (#[trigger] stack@[j]).x < nodes_x && 0 <= stack@[j].y
                    < nodes_y && visited@[stack@[j].y * nodes_x + stack@[j].x],
            forall|j1: int, j2: int|
                0 <= j1 < j2 < stack@.len() ==> #[trigger] stack@[j1] != #[trigger] stack@[j2],
            forall|n: Coord|
                0 <= n.x < nodes_x && 0 <= n.y < nodes_y && visited@[n.y * nodes_x + n.x]
                    ==> grid.open_at(#[trigger] node_cell(n)),
            forall|n: Coord, k: int|
                in_lattice(n, nx, ny) && 0 <= k < 4 && vis(visited@, nx, n) && !stack@.contains(n)
                    && #[trigger] in_lattice(crate::walk::neighbour(n, k), nx, ny) ==> vis(
                    visited@,
                    nx,
                    crate::walk::neighbour(n, k),
                ),
        decreases 2 * (total - count_true(visited@)) + stack@.len(),
    {
        let node = stack[stack.len() - 1];
        let ghost now = carve_after(w, nx, ny, seed, cells0, made0, rounds);
        proof {
            assert(carve_after(w, nx, ny, seed, cells0, made0, rounds + 1) == carve_step(w, nx, ny, seed, now));
            assert(now.2.last() == node);
        }
        let mut options: Vec<usize> = Vec::new();
        let mut k: usize = 0;
        while k < 4
            invariant
                options@ == carve_options(visited@, nx, ny, node, k as int),
                0 <= node.x < nodes_x,
                0 <= node.y < nodes_y,
                nx == nodes_x,
                ny == nodes_y,
                visited@.len() == total,
                total == nodes_x * nodes_y,
                nodes_x * nodes_y <= i32::MAX,
                k <= 4,
                options@.len() <= k,
                forall|j: int|
                    0 <= j < options@.len() ==> #[trigger] options@[j] < 4 && {
                        let (nnx, nny) = (
                            node.x + step_dx(options@[j] as int),
                            node.y + step_dy(options@[j] as int),
                        );
                        0 <= nnx < nodes_x && 0 <= nny < nodes_y && !visited@[nny * nodes_x + nnx]
                    },
                forall|k2: int|
                    0 <= k2 < k && #[trigger] in_lattice(crate::walk::neighbour(node, k2), nx, ny)
                        && !vis(visited@, nx, crate::walk::neighbour(node, k2)) ==> options@.len() > 0,
            decreases 4 - k,
        {
            let (cx, cy) = if k == 0 {
                (node.x + 1, node.y)
            } else if k == 1 {
                (node.x - 1, node.y)
            } else if k == 2 {
                (node.x, node.y + 1)
            } else {
                (node.x, node.y - 1)
            };
            proof {
                let m = crate::walk::neighbour(node, k as int);
                assert(m.x == cx && m.y == cy);
            }
            if 0 <= cx && cx < nodes_x && 0 <= cy && cy < nodes_y {
                proof {
                    lemma_row_major(nx, ny, cx as int, cy as int, 0, 0);
                }
                if !visited[(cy * nodes_x + cx) as usize] {
                    options.push(k);
                }
            }
            k = k + 1;
        }
        if options.len() == 0 {
            let ghost full = stack@;
            stack.pop();
            proof {
                assert(full =~= stack@.push(node));
                assert forall|n: Coord, k2: int|
                    in_lattice(n, nx, ny) && 0 <= k2 < 4 && vis(visited@, nx, n) && !stack@.contains(n)
                        && #[trigger] in_lattice(crate::walk::neighbour(n, k2), nx, ny) implies vis(
                    visited@,
                    nx,
                    crate::walk::neighbour(n, k2),
                ) by {
                    if n != node {
                        if full.contains(n) {
                            let j = choose|j: int| 0 <= j < full.len() && full[j] == n;
                            assert(stack@[j] == n);
                        }
                    }
                }
                assert forall|j: int|
                    0 <= j < stack@.len() implies 0 <= (#[trigger] stack@[j]).x < nodes_x && 0
                        <= stack@[j].y < nodes_y && visited@[stack@[j].y * nodes_x + stack@[j].x] by {
                    assert(stack@[j] == full[j]);
                }
            }
            proof {
                rounds = rounds + 1;
            }
            continue;
        }
        let ghost made_now = rng.made();
        let drawn = random_index(rng, options.len());
        let choice = options[drawn];
        let next = if choice == 0 {
            Coord::new(node.x + 1, node.y)
        } else if choice == 1 {
            Coord::new(node.x - 1, node.y)
        } else if choice == 2 {
            Coord::new(node.x, node.y + 1)
        } else {
            Coord::new(node.x, node.y - 1)
        };
        let here = Coord::new(2 * node.x + 1, 2 * node.y + 1);
        let edge = Coord::new(here.x + (next.x - node.x), here.y + (next.y - node.y));
        let there = Coord::new(2 * next.x + 1, 2 * next.y + 1);
        let ghost v0 = visited@;
        proof {
            lemma_row_major(nx, ny, next.x as int, next.y as int, 0, 0);
            lemma_row_major(nx, ny, node.x as int, node.y as int, 0, 0);
            lemma_count_true_mark(visited@, next.y * nodes_x + next.x);
            lemma_count_true_bound(visited@.update(next.y * nodes_x + next.x, true));
            assert(here == node_cell(node));
            assert(grid.open_at(here));
            assert(adjacent(node, next)) by {
                assert(step_dx(choice as int) == next.x - node.x);
            }
            lemma_fresh_cells(v0, nx, ny, node, next, edge, there);
            assert(!grid.open_at(edge));
            assert(!grid.open_at(there));
            assert forall|j: int| 0 <= j < stack@.len() implies #[trigger] stack@[j] != next by {
                let s = stack@[j];
                lemma_row_major(nx, ny, s.x as int, s.y as int, next.x as int, next.y as int);
            }
        }
        let index = (next.y * nodes_x + next.x) as usize;
        visited.set(index, true);
        proof {
            assert forall|n: Coord| in_lattice(n, nx, ny) && vis(v0, nx, n) implies vis(visited@, nx, n) by {
                lemma_row_major(nx, ny, n.x as int, n.y as int, 0, 0);
            }
            assert(vis(visited@, nx, next));
        }
        let ghost g0 = *grid;
        grid.set(edge, Cell::Open);
        proof {
            assert(adjacent(here, edge)) by {
                assert(step_dx(choice as int) == edge.x - here.x);
            }
            assert(g0.opens_into(grid));
            lemma_opening_keeps_reach(g0, *grid, root, edge, here);
            g0.lemma_open_one(*grid, edge);
        }
        let ghost g1 = *grid;
        grid.set(there, Cell::Open);
        proof {
            assert(adjacent(edge, there)) by {
                assert(step_dx(choice as int) == there.x - edge.x);
            }
            assert(g1.opens_into(grid));
            lemma_opening_keeps_reach(g1, *grid, root, there, edge);
            g1.lemma_open_one(*grid, there);
            assert forall|c: Coord| #[trigger] grid.open_at(c) implies interior(*grid, c) && carved(
                c,
                visited@,
                nx,
                ny,
            ) by {
                if c == there {
                    assert(node_at(next, c));
                } else if c == edge {
                    assert(edge_at(node, next, c));
                } else {
                    assert(g0.open_at(c));
                    assert(carved(c, v0, nx, ny));
                    if exists|n: Coord| #[trigger] node_at(n, c) && in_lattice(n, nx, ny) && vis(v0, nx, n) {
                        let n = choose|n: Coord| #[trigger] node_at(n, c) && in_lattice(n, nx, ny) && vis(v0, nx, n);
                        assert(vis(visited@, nx, n));
                    } else {
                        let (a, b) = choose|a: Coord, b: Coord|
                            #[trigger] edge_at(a, b, c) && in_lattice(a, nx, ny) && in_lattice(b, nx, ny)
                                && adjacent(a, b) && vis(v0, nx, a) && vis(v0, nx, b);
                        assert(vis(visited@, nx, a) && vis(visited@, nx, b));
                    }
                }
            }
            assert forall|n: Coord|
                0 <= n.x < nodes_x && 0 <= n.y < nodes_y && visited@[n.y * nodes_x + n.x]
                    implies grid.open_at(#[trigger] node_cell(n)) by {
                lemma_row_major(nx, ny, n.x as int, n.y as int, next.x as int, next.y as int);
                if n != next {
                    assert(g0.open_at(node_cell(n)));
                }
            }
        }
        let ghost prior_stack = stack@;
        stack.push(next);
        proof {
            assert forall|j: int|
                0 <= j < stack@.len() implies 0 <= (#[trigger] stack@[j]).x < nodes_x && 0 <= stack@[j].y
                    < nodes_y && visited@[stack@[j].y * nodes_x + stack@[j].x] by {
                let s = stack@[j];
                lemma_row_major(nx, ny, s.x as int, s.y as int, next.x as int, next.y as int);
            }
            assert forall|j1: int, j2: int|
                0 <= j1 < j2 < stack@.len() implies #[trigger] stack@[j1] != #[trigger] stack@[j2] by {
                if j2 == stack@.len() - 1 {
                    assert(prior_stack[j1] != next);
                } else {
                    assert(prior_stack[j1] != prior_stack[j2]);
                }
            }
            assert forall|n: Coord, k2: int|
                in_lattice(n, nx, ny) && 0 <= k2 < 4 && vis(visited@, nx, n) && !stack@.contains(n)
                    && #[trigger] in_lattice(crate::walk::neighbour(n, k2), nx, ny) implies vis(
                visited@,
                nx,
                crate::walk::neighbour(n, k2),
            ) by {
                assert(stack@[stack@.len() - 1] == next);
                assert(n != next);
                lemma_row_major(nx, ny, n.x as int, n.y as int, next.x as int, next.y as int);
                assert(vis(v0, nx, n));
                if prior_stack.contains(n) {
                    let j = choose|j: int| 0 <= j < prior_stack.len() && prior_stack[j] == n;
                    assert(stack@[j] == n);
                }
                let m = crate::walk::neighbour(n, k2);
                assert(vis(v0, nx, m));
                lemma_row_major(nx, ny, m.x as int, m.y as int, 0, 0);
            }
            let st = carve_step(w, nx, ny, seed, now);
            assert(choice as int == options@[drawn as int] as int);
            assert(next == crate::walk::neighbour(node, choice as int));
            assert(grid.spec_cells() =~= st.0);
            assert(visited@ =~= st.1);
            assert(stack@ =~= st.2);
            rounds = rounds + 1;
        }
    }
    proof {
        lemma_carved_result_at(w, nx, ny, seed, cells0, made0, rounds);
        lemma_lattice_filled(visited@, nx, ny, start);
        assert forall|i: int| 0 <= i < visited@.len() implies #[trigger] visited@[i] by {
            let n = Coord { x: (i % nx) as i32, y: (i / nx) as i32 };
            vstd::arithmetic::div_mod::lemma_fundamental_div_mod(i, nx);
            assert(0 <= i / nx < ny) by (nonlinear_arith)
                requires
                    0 <= i < nx * ny,
                    nx > 0,
                    i == nx * (i / nx) + i % nx,
                    0 <= i % nx < nx,
            ;
            assert(in_lattice(n, nx, ny));
            assert(n.y * nx + n.x == i) by (nonlinear_arith)
                requires
                    n.y == i / nx,
                    n.x == i % nx,
                    i == nx * (i / nx) + i % nx,
            ;
        }
        lemma_count_true_all(visited@);
        assert forall|n: Coord| #[trigger] in_lattice(n, nx, ny) implies grid.open_at(node_cell(n)) by {
            assert(vis(visited@, nx, n));
        }
        assert forall|c: Coord| #[trigger] grid.open_at(c) implies on_corridor(c) by {
            lemma_carved_on_corridor(c, visited@, nx, ny);
        }
    }
    Ghost(root)
}

/// Opening one interior wall takes exactly one off the interior wall count.
proof fn lemma_open_interior_wall(before: Grid, after: Grid, cell: Coord)
    requires
        before.wf(),
        after.wf(),
        after.spec_width() == before.spec_width(),
        after.spec_height() == before.spec_height(),
        interior(before, cell),
        !before.open_at(cell),
        after.open_at(cell),
        forall|c: Coord| c != cell ==> #[trigger] after.cell(c) == before.cell(c),
    ensures
        interior_wall_total(after) + 1 == interior_wall_total(before),
{
    let (m0, m1) = (interior_wall_mask(before), interior_wall_mask(after));
    before.lemma_index(cell.x as int, cell.y as int);
    let idx = before.index_of(cell);
    assert(before.coord_of(idx) == cell);
    assert forall|i: int| 0 <= i < m1.len() implies m1[i] == m0.update(idx, false)[i] by {
        before.lemma_coord(i);
        if i != idx {
            assert(before.coord_of(i) != cell);
            assert(after.cell(before.coord_of(i)) == before.cell(before.coord_of(i)));
        }
    }
    assert(m1 =~= m0.update(idx, false));
    assert(m1.update(idx, true) =~= m0);
    lemma_count_true_mark(m1, idx);
}

/// Where no interior wall can be opened, the open region spreads along a row
/// (or column) of the interior from any open interior cell.
proof fn lemma_slide_open(g: Grid, from: Coord, to: int, along_x: bool)
    requires
        g.wf(),
        interior(g, from),
        g.open_at(from),
        no_wall_can_open(g),
        along_x ==> 1 <= to < g.spec_width() - 1,
        !along_x ==> 1 <= to < g.spec_height() - 1,
    ensures
        along_x ==> g.open_at(Coord { x: to as i32, y: from.y }),
        !along_x ==> g.open_at(Coord { x: from.x, y: to as i32 }),
    decreases if along_x {
        gap(from.x as int, to)
    } else {
        gap(from.y as int, to)
    },
{
    let (w, h) = (g.spec_width(), g.spec_height());
    assert(w <= i32::MAX && h <= i32::MAX) by (nonlinear_arith)
        requires
            0 < w,
            0 < h,
            w * h <= i32::MAX,
    ;
    let here = if along_x {
        from.x as int
    } else {
        from.y as int
    };
    if here != to {
        let (k, back): (int, int) = if along_x {
            if here < to {
                (0, 1)
            } else {
                (1, 0)
            }
        } else {
            if here < to {
                (2, 3)
            } else {
                (3, 2)
            }
        };
        assert(0 <= k < 4 && 0 <= back < 4);
        assert(step_dx(back) == -step_dx(k) && step_dy(back) == -step_dy(k));
        assert(along_x ==> step_dy(k) == 0 && (here < to ==> step_dx(k) == 1) && (here > to ==> step_dx(k) == -1));
        assert(!along_x ==> step_dx(k) == 0 && (here < to ==> step_dy(k) == 1) && (here > to ==> step_dy(k) == -1));
        let next = crate::walk::neighbour(from, k);
        assert(next.x == from.x + step_dx(k) && next.y == from.y + step_dy(k));
        assert(interior(g, next));
        if !g.open_at(next) {
            assert(step_dx(back) == from.x - next.x && step_dy(back) == from.y - next.y);
            assert(adjacent(next, from));
        }
        lemma_slide_open(g, next, to, along_x);
    } else {
        if along_x {
            assert(Coord { x: to as i32, y: from.y } == from);
        } else {
            assert(Coord { x: from.x, y: to as i32 } == from);
        }
    }
}

/// Where no interior wall can be opened and some interior cell is open, no
/// interior wall is left: the walls can only be stuck once they are all gone.
proof fn lemma_stuck_is_open(g: Grid, open: Coord)
    requires
        g.wf(),
        interior(g, open),
        g.open_at(open),
        no_wall_can_open(g),
    ensures
        interior_wall_total(g) == 0,
{
    assert forall|c: Coord| interior(g, c) implies #[trigger] g.open_at(c) by {
        lemma_slide_open(g, open, c.x as int, true);
        let mid = Coord { x: c.x, y: open.y };
        lemma_slide_open(g, mid, c.y as int, false);
        assert(Coord { x: mid.x, y: c.y } == c);
    }
    let mask = interior_wall_mask(g);
    assert forall|i: int| 0 <= i < mask.len() implies !#[trigger] mask[i] by {
        g.lemma_coord(i);
    }
    lemma_count_true_none(mask);
}

/// The interior walls among the first `i` storage indices of a grid `w` by
/// `h` holding `cells`, in storage order.
pub open spec fn interior_walls_listed(w: int, h: int, cells: Seq<Cell>, i: int) -> Seq<Coord>
    decreases i,
{
    if i <= 0 {
        Seq::empty()
    } else {
        let p = interior_walls_listed(w, h, cells, i - 1);
        let c = Coord { x: ((i - 1) % w) as i32, y: ((i - 1) / w) as i32 };
        if 1 <= c.x < w - 1 && 1 <= c.y < h - 1 && cells[i - 1] != Cell::Open {
            p.push(c)
        } else {
            p
        }
    }
}

/// `c` is an open cell of a grid `w` by `h` holding `cells`.
pub open spec fn open_in(w: int, h: int, cells: Seq<Cell>, c: Coord) -> bool {
    0 <= c.x < w && 0 <= c.y < h && cells[at_index(w, c)] == Cell::Open
}

/// Thinning's look at one candidate: while there are more walls than
/// `target`, a wall with an open neighbour is opened.
pub open spec fn thin_one(w: int, h: int, target: int, st: (Seq<Cell>, int), c: Coord) -> (Seq<Cell>, int) {
    if st.1 <= target || !(0 <= at_index(w, c) < st.0.len()) || open_in(w, h, st.0, c) || !(exists|n: Coord|
        adjacent(c, n) && #[trigger] open_in(w, h, st.0, n)) {
        st
    } else {
        (st.0.update(at_index(w, c), Cell::Open), st.1 - 1)
    }
}

/// Thinning's look at the first `j` candidates, in order.
pub open spec fn sweep_upto(
    w: int,
    h: int,
    target: int,
    st: (Seq<Cell>, int),
    candidates: Seq<Coord>,
    j: nat,
) -> (Seq<Cell>, int)
    decreases j,
{
    if j == 0 {
        st
    } else {
        thin_one(w, h, target, sweep_upto(w, h, target, st, candidates, (j - 1) as nat), candidates[j - 1])
    }
}

/// The cells, the wall count and whether thinning is over, after `k` sweeps
/// over `candidates`: it is over once the target is met or a sweep opens
/// nothing.
pub open spec fn thin_after(
    w: int,
    h: int,
    target: int,
    candidates: Seq<Coord>,
    cells: Seq<Cell>,
    walls: int,
    k: nat,
) -> (Seq<Cell>, int, bool)
    decreases k,
{
    if k == 0 {
        (cells, walls, false)
    } else {
        let p = thin_after(w, h, target, candidates, cells, walls, (k - 1) as nat);
        if p.2 {
            p
        } else {
            let r = sweep_upto(w, h, target, (p.0, p.1), candidates, candidates.len());
            (r.0, r.1, r.1 <= target || r.1 == p.1)
        }
    }
}

/// What thinning a grid `w` by `h` holding `cells` down to `target` walls
/// leaves, and the draws made by then, with a generator seeded with `seed`
/// after the draws `made`: with walls to spare, the interior walls are
/// shuffled once and swept until it is over.
pub open spec fn thinned(w: int, h: int, target: int, seed: u64, made: Seq<Draw>, cells: Seq<Cell>) -> (
    Seq<Cell>,
    Seq<Draw>,
) {
    let listed = interior_walls_listed(w, h, cells, w * h);
    if listed.len() <= target {
        (cells, made)
    } else {
        let candidates = shuffled(seed, made, listed);
        let k = choose|k: nat| (#[trigger] thin_after(w, h, target, candidates, cells, listed.len() as int, k)).2;
        (
            thin_after(w, h, target, candidates, cells, listed.len() as int, k).0,
            made.push(Draw::Shuffle(listed.len() as usize)),
        )
    }
}

/// Once thinning is over it stays over, and as it was.
proof fn lemma_thin_stays(
    w: int,
    h: int,
    target: int,
    candidates: Seq<Coord>,
    cells: Seq<Cell>,
    walls: int,
    a: nat,
    b: nat,
)
    requires
        a <= b,
        thin_after(w, h, target, candidates, cells, walls, a).2,
    ensures
        thin_after(w, h, target, candidates, cells, walls, b) == thin_after(w, h, target, candidates, cells, walls, a),
    decreases b - a,
{
    if b > a {
        lemma_thin_stays(w, h, target, candidates, cells, walls, a, (b - 1) as nat);
    }
}

/// Once thinning is over after `k` sweeps, any sweep count at which it is
/// over gives the same cells.
proof fn lemma_thin_over_at(
    w: int,
    h: int,
    target: int,
    candidates: Seq<Coord>,
    cells: Seq<Cell>,
    walls: int,
    k: nat,
)
    requires
        thin_after(w, h, target, candidates, cells, walls, k).2,
    ensures
        ({
            let c = choose|c: nat| (#[trigger] thin_after(w, h, target, candidates, cells, walls, c)).2;
            thin_after(w, h, target, candidates, cells, walls, c) == thin_after(
                w,
                h,
                target,
                candidates,
                cells,
                walls,
                k,
            )
        }),
{
    let c = choose|c: nat| (#[trigger] thin_after(w, h, target, candidates, cells, walls, c)).2;
    if c <= k {
        lemma_thin_stays(w, h, target, candidates, cells, walls, c, k);
    } else {
        lemma_thin_stays(w, h, target, candidates, cells, walls, k, c);
    }
}

/// Once the walls are down to the target, the rest of a sweep changes
/// nothing.
proof fn lemma_sweep_settled(
    w: int,
    h: int,
    target: int,
    st: (Seq<Cell>, int),
    candidates: Seq<Coord>,
    a: nat,
    b: nat,
)
    requires
        a <= b,
        sweep_upto(w, h, target, st, candidates, a).1 <= target,
    ensures
        sweep_upto(w, h, target, st, candidates, b) == sweep_upto(w, h, target, st, candidates, a),
    decreases b - a,
{
    if b > a {
        lemma_sweep_settled(w, h, target, st, candidates, a, (b - 1) as nat);
    }
}

/// The interior walls of `grid`, in storage order.
fn interior_walls_of(grid: &Grid) -> (r: Vec<Coord>)
    requires
        grid.wf(),
    ensures
        r@.len() == interior_wall_total(*grid),
        forall|j: int| 0 <= j < r@.len() ==> interior(*grid, #[trigger] r@[j]) && !grid.open_at(r@[j]),
        forall|c: Coord| interior(*grid, c) && !#[trigger] grid.open_at(c) ==> r@.contains(c),
        r@ == interior_walls_listed(grid.spec_width(), grid.spec_height(), grid.spec_cells(), grid.size()),
{
    let n = grid.width() as usize * grid.height() as usize;
    let width = grid.width();
    let height = grid.height();
    let ghost mask = interior_wall_mask(*grid);
    let mut r: Vec<Coord> = Vec::new();
    let mut i: usize = 0;
    while i < n
        invariant
            grid.wf(),
            n == grid.size(),
            width == grid.spec_width(),
            height == grid.spec_height(),
            mask == interior_wall_mask(*grid),
            i <= n,
            r@.len() == count_true(mask.take(i as int)),
            r@ == interior_walls_listed(width as int, height as int, grid.spec_cells(), i as int),
            forall|j: int|
                0 <= j < r@.len() ==> interior(*grid, #[trigger] r@[j]) && !grid.open_at(r@[j]),
            forall|c: Coord|
                interior(*grid, c) && !#[trigger] grid.open_at(c) && grid.index_of(c) < i
                    ==> r@.contains(c),
        decreases n - i,
    {
        proof {
            grid.lemma_coord(i as int);
            assert(mask.take(i + 1).drop_last() =~= mask.take(i as int));
        }
        let c = Coord::new((i as i32) % width, (i as i32) / width);
        let ghost prior = r@;
        if 1 <= c.x && c.x < width - 1 && 1 <= c.y && c.y < height - 1 && grid.is_wall(c) {
            r.push(c);
        }
        proof {
            assert forall|d: Coord|
                interior(*grid, d) && !#[trigger] grid.open_at(d) && grid.index_of(d) < i + 1
                    implies r@.contains(d) by {
                grid.lemma_index(d.x as int, d.y as int);
                if grid.index_of(d) == i {
                    grid.lemma_index_injective(c, d);
                    assert(r@[r@.len() - 1] == d);
                } else {
                    let j = choose|j: int| 0 <= j < prior.len() && prior[j] == d;
                    assert(r@[j] == d);
                }
            }
        }
        i = i + 1;
    }
    proof {
        assert(mask.take(n as int) =~= mask);
        assert forall|c: Coord| interior(*grid, c) && !#[trigger] grid.open_at(c) implies r@.contains(
            c,
        ) by {
            grid.lemma_index(c.x as int, c.y as int);
        }
    }
    r
}

/// Opens interior walls at random until `target` of them are left.
///
/// Only walls with an open orthogonal neighbour are eligible, which keeps the
/// maze in one piece. Opening one wall can make a previously ineligible
/// neighbour eligible, so the shuffled candidate list is swept repeatedly
/// until either the target is met or a whole sweep opens nothing. A sweep
/// opens nothing only once no interior wall is left, so the target is always
/// met when it is not negative.
fn thin(grid: &mut Grid, target: i32, rng: &mut Draws, Ghost(root): Ghost<Coord>)
    requires
        old(grid).wf(),
        old(grid).open_at(root),
        all_reach_from(*old(grid), root),
        forall|c: Coord| #[trigger] old(grid).open_at(c) ==> interior(*old(grid), c),
    ensures
        final(grid).wf(),
        old(grid).opens_into(final(grid)),
        forall|c: Coord| #[trigger] final(grid).open_at(c) ==> interior(*final(grid), c),
        all_reach_from(*final(grid), root),
        interior_wall_total(*old(grid)) <= target ==> *final(grid) == *old(grid),
        interior_wall_total(*old(grid)) > target ==> interior_wall_total(*final(grid)) == (if target
            < 0 {
            0
        } else {
            target
        }),
        final(rng).seed() == old(rng).seed(),
        (final(grid).spec_cells(), final(rng).made()) == thinned(
            old(grid).spec_width(),
            old(grid).spec_height(),
            target as int,
            old(rng).seed(),
            old(rng).made(),
            old(grid).spec_cells(),
        ),
{
    let ghost start = *grid;
    let ghost (w, h, seed, made0) = (grid.spec_width(), grid.spec_height(), rng.seed(), rng.made());
    let mut candidates = interior_walls_of(grid);
    proof {
        lemma_count_true_bound(interior_wall_mask(*grid));
        assert(grid.size() <= i32::MAX);
    }
    let mut walls = candidates.len() as i32;
    if walls <= target {
        return;
    }
    let ghost listed = candidates@;
    shuffle(&mut candidates, rng);
    let ghost cand = candidates@;
    let ghost mut rounds: nat = 0;
    proof {
        listed.to_multiset_ensures();
        candidates@.to_multiset_ensures();
        assert forall|j: int| 0 <= j < candidates@.len() implies interior(
            *grid,
            #[trigger] candidates@[j],
        ) by {
            let x = candidates@[j];
            assert(candidates@.contains(x));
            assert(candidates@.to_multiset().count(x) > 0);
            assert(listed.to_multiset().count(x) > 0);
            assert(listed.contains(x));
        }
        assert forall|c: Coord| interior(*grid, c) && !#[trigger] grid.open_at(c) implies candidates@.contains(c) by {
            assert(listed.contains(c));
            assert(listed.to_multiset().count(c) > 0);
            assert(candidates@.to_multiset().count(c) > 0);
        }
    }
    loop
        invariant
            candidates@ == cand,
            cand == shuffled(seed, made0, listed),
            listed == interior_walls_listed(w, h, start.spec_cells(), w * h),
            listed.len() > target,
            grid.spec_width() == w,
            grid.spec_height() == h,
            rng.seed() == seed,
            seed == old(rng).seed(),
            made0 == old(rng).made(),
            w == old(grid).spec_width(),
            h == old(grid).spec_height(),
            rng.made() == made0.push(Draw::Shuffle(listed.len() as usize)),
            (grid.spec_cells(), walls as int, false) == thin_after(
                w,
                h,
                target as int,
                cand,
                start.spec_cells(),
                listed.len() as int,
                rounds,
            ),
            grid.wf(),
            start == *old(grid),
            start.opens_into(grid),
            forall|c: Coord| #[trigger] grid.open_at(c) ==> interior(*grid, c),
            all_reach_from(*grid, root),
            start.open_at(root),
            walls == interior_wall_total(*grid),
            walls >= target,
            interior_wall_total(start) > target,
            forall|j: int| 0 <= j < candidates@.len() ==> interior(*grid, #[trigger] candidates@[j]),
            forall|c: Coord| interior(*grid, c) && !#[trigger] grid.open_at(c) ==> candidates@.contains(c),
        decreases walls - target,
    {
        let before = walls;
        let ghost sweep = *grid;
        let ghost now = thin_after(w, h, target as int, cand, start.spec_cells(), listed.len() as int, rounds);
        let mut j: usize = 0;
        while j < candidates.len()
            invariant
                (grid.spec_cells(), walls as int) == sweep_upto(
                    w,
                    h,
                    target as int,
                    (sweep.spec_cells(), before as int),
                    cand,
                    j as nat,
                ),
                candidates@ == cand,
                grid.spec_width() == w,
                grid.spec_height() == h,
                rng.seed() == seed,
                seed == old(rng).seed(),
                made0 == old(rng).made(),
                w == old(grid).spec_width(),
                h == old(grid).spec_height(),
                rng.made() == made0.push(Draw::Shuffle(listed.len() as usize)),
                cand == shuffled(seed, made0, listed),
                listed == interior_walls_listed(w, h, start.spec_cells(), w * h),
                listed.len() > target,
                now == thin_after(w, h, target as int, cand, start.spec_cells(), listed.len() as int, rounds),
                now == (sweep.spec_cells(), before as int, false),
                grid.wf(),
                start == *old(grid),
                start.opens_into(grid),
                sweep.opens_into(grid),
                forall|c: Coord| #[trigger] grid.open_at(c) ==> interior(*grid, c),
                all_reach_from(*grid, root),
                start.open_at(root),
                walls == interior_wall_total(*grid),
                walls >= target,
                walls <= before,
                interior_wall_total(start) > target,
                j <= candidates@.len(),
                forall|k: int| 0 <= k < candidates@.len() ==> interior(*grid, #[trigger] candidates@[k]),
                forall|c: Coord| interior(*grid, c) && !#[trigger] grid.open_at(c) ==> candidates@.contains(c),
                walls == before ==> forall|c: Coord| #[trigger] grid.open_at(c) == sweep.open_at(c),
                walls == before ==> forall|k: int, n: Coord|
                    0 <= k < j && !grid.open_at(candidates@[k]) && #[trigger] adjacent(candidates@[k], n)
                        ==> !grid.open_at(n),
            decreases candidates@.len() - j,
        {
            let cell = candidates[j];
            if walls <= target {
                proof {
                    lemma_sweep_settled(
                        w,
                        h,
                        target as int,
                        (sweep.spec_cells(), before as int),
                        cand,
                        j as nat,
                        cand.len(),
                    );
                    assert(thin_after(w, h, target as int, cand, start.spec_cells(), listed.len() as int, rounds + 1) == (
                    grid.spec_cells(), walls as int, true));
                    lemma_thin_over_at(w, h, target as int, cand, start.spec_cells(), listed.len() as int, rounds + 1);
                }
                return;
            }
            proof {
                assert(interior(*grid, cell));
                grid.lemma_index(cell.x as int, cell.y as int);
                assert forall|n: Coord| #[trigger] grid.open_at(n) == open_in(w, h, grid.spec_cells(), n) by {}
                assert(sweep_upto(w, h, target as int, (sweep.spec_cells(), before as int), cand, (j + 1) as nat)
                    == thin_one(
                    w,
                    h,
                    target as int,
                    (grid.spec_cells(), walls as int),
                    cand[j as int],
                ));
            }
            if grid.is_open(cell) || !grid.has_open_neighbour(cell) {
                proof {
                    if !grid.open_at(cell) {
                        assert(!(exists|n: Coord| adjacent(cell, n) && #[trigger] open_in(w, h, grid.spec_cells(), n))) by {
                            if exists|n: Coord| adjacent(cell, n) && #[trigger] open_in(w, h, grid.spec_cells(), n) {
                                let n = choose|n: Coord| adjacent(cell, n) && #[trigger] open_in(w, h, grid.spec_cells(), n);
                                assert(grid.open_at(n));
                            }
                        }
                    }
                }
                j = j + 1;
                continue;
            }
            let ghost prior = *grid;
            let ghost via = choose|n: Coord| adjacent(cell, n) && #[trigger] grid.open_at(n);
            proof {
                assert(open_in(w, h, prior.spec_cells(), via));
            }
            grid.set(cell, Cell::Open);
            proof {
                assert(grid.spec_cells() =~= prior.spec_cells().update(at_index(w, cell), Cell::Open));
                assert(prior.opens_into(grid));
                crate::walk::lemma_adjacent_symmetric(cell, via);
                lemma_opening_keeps_reach(prior, *grid, root, cell, via);
                lemma_open_interior_wall(prior, *grid, cell);
                assert forall|c: Coord| interior(*grid, c) && !#[trigger] grid.open_at(c) implies candidates@.contains(c) by {
                    assert(!prior.open_at(c));
                }
                assert forall|c: Coord| #[trigger] grid.open_at(c) implies interior(*grid, c) by {
                    if c != cell {
                        assert(prior.open_at(c));
                    }
                }
            }
            walls = walls - 1;
            j = j + 1;
        }
        if walls == before {
            proof {
                assert forall|c: Coord, n: Coord|
                    interior(*grid, c) && !grid.open_at(c) && #[trigger] adjacent(c, n) implies !grid.open_at(n) by {
                    assert(candidates@.contains(c));
                    let k = choose|k: int| 0 <= k < candidates@.len() && candidates@[k] == c;
                    assert(adjacent(candidates@[k], n));
                }
                lemma_stuck_is_open(*grid, root);
            }
            proof {
                assert(thin_after(w, h, target as int, cand, start.spec_cells(), listed.len() as int, rounds + 1) == (
                grid.spec_cells(), walls as int, true));
                lemma_thin_over_at(w, h, target as int, cand, start.spec_cells(), listed.len() as int, rounds + 1);
            }
            return;
        }
        if walls <= target {
            proof {
                assert(thin_after(w, h, target as int, cand, start.spec_cells(), listed.len() as int, rounds + 1) == (
                grid.spec_cells(), walls as int, true));
                lemma_thin_over_at(w, h, target as int, cand, start.spec_cells(), listed.len() as int, rounds + 1);
            }
            return;
        }
        proof {
            rounds = rounds + 1;
        }
    }
}

/// Picks the cell the player starts in: any open cell.
fn pick_spawn(grid: &Grid, rng: &mut Draws, Ghost(root): Ghost<Coord>) -> (spawn: Coord)
    requires
        grid.wf(),
        grid.open_at(root),
    ensures
        grid.open_at(spawn),
        final(rng).seed() == old(rng).seed(),
        ({
            let open = cells_listed(grid.spec_width(), grid.spec_cells(), true, grid.size());
            &&& spawn == open[drawn_index(old(rng).seed(), old(rng).made(), open.len() as usize) as int]
            &&& final(rng).made() == old(rng).made().push(Draw::Index(open.len() as usize))
        }),
{
    let open = grid.open();
    proof {
        assert(open@.contains(root));
    }
    open[random_index(rng, open.len())]
}

/// A generated maze, and everything about it a level needs to start.
pub struct Maze {
    /// The cells.
    pub grid: Grid,
    /// Cell the player's tank starts in. Always open.
    pub spawn: Coord,
    /// Seed this maze came from, so a maze someone got stuck in can be
    /// regenerated exactly from a bug report.
    pub seed: u64,
}

impl Maze {
    /// Number of cells not on the always-solid border ring.
    pub fn interior_count(&self) -> (r: i32)
        requires
            self.grid.wf(),
        ensures
            r == (if self.grid.spec_width() > 2 {
                self.grid.spec_width() - 2
            } else {
                0
            }) * (if self.grid.spec_height() > 2 {
                self.grid.spec_height() - 2
            } else {
                0
            }),
    {
        let w = if self.grid.width() > 2 {
            self.grid.width() - 2
        } else {
            0
        };
        let h = if self.grid.height() > 2 {
            self.grid.height() - 2
        } else {
            0
        };
        proof {
            let (gw, gh) = (self.grid.spec_width(), self.grid.spec_height());
            assert(w * h <= gw * gh) by (nonlinear_arith)
                requires
                    0 <= w <= gw,
                    0 <= h <= gh,
            ;
        }
        w * h
    }

    /// Number of interior cells that are wall.
    pub fn interior_walls(&self) -> (r: i32)
        requires
            self.grid.wf(),
        ensures
            r == interior_wall_total(self.grid),
    {
        let walls = interior_walls_of(&self.grid);
        proof {
            lemma_count_true_bound(interior_wall_mask(self.grid));
        }
        walls.len() as i32
    }
}

/// The cells and spawn cell of the maze [`generate`] makes from these
/// arguments: carve a solid grid of the rounded-up spans, thin it, and draw
/// the spawn among the open cells, all from one generator seeded with `seed`.
pub open spec fn generated(cols: i32, rows: i32, wall_target: i32, seed: u64) -> (Seq<Cell>, Coord) {
    let (w, h) = (spec_span(cols), spec_span(rows));
    let solid = Seq::new((w * h) as nat, |i: int| Cell::Wall);
    let carve = carved_result(w, (w - 1) / 2, (h - 1) / 2, seed, solid, Seq::empty());
    let thin = thinned(w, h, wall_target as int, seed, carve.3, carve.0);
    let open = cells_listed(w, thin.0, true, w * h);
    (thin.0, open[drawn_index(seed, thin.1, open.len() as usize) as int])
}

/// Generates a maze of (at least) `cols` by `rows` cells with `wall_target`
/// interior walls, or as near to that as the maze allows.
///
/// The carve builds a perfect maze, the densest one that is still in one
/// piece; thinning then opens walls down to the target. A target at or above
/// the perfect maze's wall count leaves the perfect maze, and a negative one
/// opens the whole interior.
///
/// The spans are rounded up by [`normalized_span`]. The cells and the spawn
/// cell are [`generated`] from the arguments alone, so the same arguments
/// always produce the same maze ([`lemma_same_seed_same_maze`]): the
/// generator is rand's xoshiro256++, which rand documents as reproducible
/// across releases.
pub fn generate(cols: i32, rows: i32, wall_target: i32, seed: u64) -> (maze: Maze)
    requires
        spec_span(cols) * spec_span(rows) <= i32::MAX,
    ensures
        maze.grid.wf(),
        maze.grid.spec_width() == spec_span(cols),
        maze.grid.spec_height() == spec_span(rows),
        maze.seed == seed,
        maze.grid.open_at(maze.spawn),
        connected(maze.grid),
        forall|c: Coord| #[trigger] maze.grid.on_border(c) ==> !maze.grid.open_at(c),
        forall|n: Coord|
            #[trigger] in_lattice(n, (maze.grid.spec_width() - 1) / 2, (maze.grid.spec_height() - 1) / 2)
                ==> maze.grid.open_at(node_cell(n)),
        interior_wall_total(maze.grid) == (if wall_target < 0 {
            0
        } else if wall_target < perfect_walls(maze.grid.spec_width(), maze.grid.spec_height()) {
            wall_target as int
        } else {
            perfect_walls(maze.grid.spec_width(), maze.grid.spec_height())
        }),
        wall_target >= perfect_walls(maze.grid.spec_width(), maze.grid.spec_height())
            ==> maze.grid.open_total() == 2 * lattice_nodes(maze.grid) - 1,
        wall_target >= perfect_walls(maze.grid.spec_width(), maze.grid.spec_height())
            ==> forall|c: Coord| #[trigger] maze.grid.open_at(c) ==> on_corridor(c),
        (maze.grid.spec_cells(), maze.spawn) == generated(cols, rows, wall_target, seed),
{
    let cols = normalized_span(cols);
    let rows = normalized_span(rows);
    let mut rng = seeded(seed);
    let mut grid = Grid::solid(cols, rows);
    let root = carve(&mut grid, &mut rng);
    let ghost carved = grid;
    proof {
        lemma_walls_and_open(carved);
    }
    thin(&mut grid, wall_target, &mut rng, root);
    let spawn = pick_spawn(&grid, &mut rng, root);
    proof {
        lemma_connected_from_root(grid, root@);
        assert forall|c: Coord| #[trigger] grid.on_border(c) implies !grid.open_at(c) by {
            if grid.open_at(c) && !interior(grid, c) {
                assert(carved.open_at(c));
            }
        }
        assert forall|n: Coord|
            #[trigger] in_lattice(n, (grid.spec_width() - 1) / 2, (grid.spec_height() - 1) / 2)
                implies grid.open_at(node_cell(n)) by {
            assert(carved.open_at(node_cell(n)));
        }
    }
    Maze { grid, spawn, seed }
}

/// The same arguments give the same maze: any two mazes [`generate`] makes
/// from the same spans, wall target and seed hold the same cells and start
/// the player in the same place.
pub proof fn lemma_same_seed_same_maze(cols: i32, rows: i32, wall_target: i32, seed: u64, a: Maze, b: Maze)
    requires
        a.grid.spec_width() == b.grid.spec_width(),
        a.grid.spec_height() == b.grid.spec_height(),
        (a.grid.spec_cells(), a.spawn) == generated(cols, rows, wall_target, seed),
        (b.grid.spec_cells(), b.spawn) == generated(cols, rows, wall_target, seed),
    ensures
        a.grid.spec_cells() == b.grid.spec_cells(),
        a.spawn == b.spawn,
        forall|c: Coord| #[trigger] a.grid.open_at(c) == b.grid.open_at(c),
{
}

/// Every cell open in `a` is open in `b`, which has as many cells.
pub open spec fn opens_no_fewer(a: Seq<Cell>, b: Seq<Cell>) -> bool {
    &&& a.len() == b.len()
    &&& forall|i: int| 0 <= i < a.len() && a[i] == Cell::Open ==> #[trigger] b[i] == Cell::Open
}

/// Thinning's look at a candidate only ever opens a cell, and never adds a
/// wall to the count.
proof fn lemma_thin_one_opens(w: int, h: int, t: int, st: (Seq<Cell>, int), c: Coord)
    ensures
        opens_no_fewer(st.0, thin_one(w, h, t, st, c).0),
        thin_one(w, h, t, st, c).1 <= st.1,
{
}

/// A sweep only ever opens cells, and never adds a wall to the count.
proof fn lemma_sweep_opens(w: int, h: int, t: int, st: (Seq<Cell>, int), candidates: Seq<Coord>, j: nat)
    ensures
        opens_no_fewer(st.0, sweep_upto(w, h, t, st, candidates, j).0),
        sweep_upto(w, h, t, st, candidates, j).1 <= st.1,
    decreases j,
{
    if j > 0 {
        let prev = sweep_upto(w, h, t, st, candidates, (j - 1) as nat);
        lemma_sweep_opens(w, h, t, st, candidates, (j - 1) as nat);
        lemma_thin_one_opens(w, h, t, prev, candidates[j - 1]);
    }
}

/// Thinning only ever opens cells.
proof fn lemma_thin_after_opens(
    w: int,
    h: int,
    t: int,
    candidates: Seq<Coord>,
    cells: Seq<Cell>,
    walls: int,
    k: nat,
)
    ensures
        opens_no_fewer(cells, thin_after(w, h, t, candidates, cells, walls, k).0),
    decreases k,
{
    if k > 0 {
        let p = thin_after(w, h, t, candidates, cells, walls, (k - 1) as nat);
        lemma_thin_after_opens(w, h, t, candidates, cells, walls, (k - 1) as nat);
        lemma_sweep_opens(w, h, t, (p.0, p.1), candidates, candidates.len());
    }
}

/// Each sweep that does not end thinning takes at least one wall down, and
/// leaves more than the target.
proof fn lemma_thin_progress(
    w: int,
    h: int,
    t: int,
    candidates: Seq<Coord>,
    cells: Seq<Cell>,
    walls: int,
    k: nat,
)
    requires
        walls > t,
    ensures
        !thin_after(w, h, t, candidates, cells, walls, k).2 ==> {
            &&& thin_after(w, h, t, candidates, cells, walls, k).1 > t
            &&& thin_after(w, h, t, candidates, cells, walls, k).1 <= walls - k
        },
    decreases k,
{
    if k > 0 {
        let p = thin_after(w, h, t, candidates, cells, walls, (k - 1) as nat);
        lemma_thin_progress(w, h, t, candidates, cells, walls, (k - 1) as nat);
        lemma_sweep_opens(w, h, t, (p.0, p.1), candidates, candidates.len());
    }
}

/// Thinning from more walls than the target comes to an end.
proof fn lemma_thin_ends(w: int, h: int, t: int, candidates: Seq<Coord>, cells: Seq<Cell>, walls: int)
    requires
        walls > t,
    ensures
        exists|k: nat| (#[trigger] thin_after(w, h, t, candidates, cells, walls, k)).2,
{
    let k = (walls - t) as nat;
    lemma_thin_progress(w, h, t, candidates, cells, walls, k);
    assert(thin_after(w, h, t, candidates, cells, walls, k).2);
}

/// Two sweeps over one list, from states that agree, with targets `t1` and a
/// lower `t2`: they stay equal until the first is down to `t1`, and from then
/// on the second has every cell the first has open.
spec fn sweeps_paired(t1: int, a: (Seq<Cell>, int), b: (Seq<Cell>, int)) -> bool {
    a == b || (a.1 <= t1 && opens_no_fewer(a.0, b.0))
}

/// [`sweeps_paired`] holds through a sweep.
proof fn lemma_sweep_paired(
    w: int,
    h: int,
    t1: int,
    t2: int,
    a: (Seq<Cell>, int),
    b: (Seq<Cell>, int),
    candidates: Seq<Coord>,
    j: nat,
)
    requires
        t2 <= t1,
        sweeps_paired(t1, a, b),
    ensures
        sweeps_paired(t1, sweep_upto(w, h, t1, a, candidates, j), sweep_upto(w, h, t2, b, candidates, j)),
    decreases j,
{
    if j > 0 {
        lemma_sweep_paired(w, h, t1, t2, a, b, candidates, (j - 1) as nat);
        let pa = sweep_upto(w, h, t1, a, candidates, (j - 1) as nat);
        let pb = sweep_upto(w, h, t2, b, candidates, (j - 1) as nat);
        let c = candidates[j - 1];
        lemma_thin_one_opens(w, h, t2, pb, c);
        if pa != pb {
            let nb = thin_one(w, h, t2, pb, c).0;
            assert forall|i: int| 0 <= i < pa.0.len() && pa.0[i] == Cell::Open implies #[trigger] nb[i] == Cell::Open by {
                assert(pb.0[i] == Cell::Open);
            }
        }
    }
}

/// Thinning with targets `t1` and a lower `t2`, sweep for sweep: the same
/// until the first is over at `t1`, and from then on the second has every cell
/// the first has open.
spec fn thins_paired(t1: int, a: (Seq<Cell>, int, bool), b: (Seq<Cell>, int, bool)) -> bool {
    a == b || (a.2 && a.1 <= t1 && opens_no_fewer(a.0, b.0))
}

/// [`thins_paired`] holds sweep for sweep.
proof fn lemma_thin_paired(
    w: int,
    h: int,
    t1: int,
    t2: int,
    candidates: Seq<Coord>,
    cells: Seq<Cell>,
    walls: int,
    k: nat,
)
    requires
        t2 <= t1,
    ensures
        thins_paired(
            t1,
            thin_after(w, h, t1, candidates, cells, walls, k),
            thin_after(w, h, t2, candidates, cells, walls, k),
        ),
    decreases k,
{
    if k > 0 {
        lemma_thin_paired(w, h, t1, t2, candidates, cells, walls, (k - 1) as nat);
        let pa = thin_after(w, h, t1, candidates, cells, walls, (k - 1) as nat);
        let pb = thin_after(w, h, t2, candidates, cells, walls, (k - 1) as nat);
        let n = candidates.len();
        if pa == pb {
            if !pa.2 {
                lemma_sweep_paired(w, h, t1, t2, (pa.0, pa.1), (pb.0, pb.1), candidates, n);
                let ra = sweep_upto(w, h, t1, (pa.0, pa.1), candidates, n);
                assert(opens_no_fewer(ra.0, ra.0));
            }
        } else {
            if !pb.2 {
                let rb = sweep_upto(w, h, t2, (pb.0, pb.1), candidates, n);
                lemma_sweep_opens(w, h, t2, (pb.0, pb.1), candidates, n);
                assert forall|i: int| 0 <= i < pa.0.len() && pa.0[i] == Cell::Open implies #[trigger] rb.0[i]
                    == Cell::Open by {
                    assert(pb.0[i] == Cell::Open);
                }
            }
        }
    }
}

/// Thinning to a lower target opens every cell thinning to a higher one
/// opens, from the same grid and the same generator.
proof fn lemma_thinned_lower(w: int, h: int, t1: int, t2: int, seed: u64, made: Seq<Draw>, cells: Seq<Cell>)
    requires
        t2 <= t1,
    ensures
        opens_no_fewer(thinned(w, h, t1, seed, made, cells).0, thinned(w, h, t2, seed, made, cells).0),
{
    let listed = interior_walls_listed(w, h, cells, w * h);
    let l = listed.len() as int;
    let candidates = shuffled(seed, made, listed);
    if l <= t2 {
    } else if l <= t1 {
        lemma_thin_ends(w, h, t2, candidates, cells, l);
        let k = choose|k: nat| (#[trigger] thin_after(w, h, t2, candidates, cells, l, k)).2;
        lemma_thin_after_opens(w, h, t2, candidates, cells, l, k);
    } else {
        lemma_thin_ends(w, h, t1, candidates, cells, l);
        lemma_thin_ends(w, h, t2, candidates, cells, l);
        let k1 = choose|k: nat| (#[trigger] thin_after(w, h, t1, candidates, cells, l, k)).2;
        let k2 = choose|k: nat| (#[trigger] thin_after(w, h, t2, candidates, cells, l, k)).2;
        let both = k1 + k2;
        lemma_thin_stays(w, h, t1, candidates, cells, l, k1, both);
        lemma_thin_stays(w, h, t2, candidates, cells, l, k2, both);
        lemma_thin_paired(w, h, t1, t2, candidates, cells, l, both);
        let a = thin_after(w, h, t1, candidates, cells, l, both);
        assert(opens_no_fewer(a.0, a.0));
    }
}

/// A lower wall target only ever opens more cells: of two mazes
/// [`generate`] makes from the same spans and seed, every cell open in the
/// one for `higher` is open in the one for `lower`.
pub proof fn lemma_lower_target_opens_more(
    cols: i32,
    rows: i32,
    higher: i32,
    lower: i32,
    seed: u64,
    a: Maze,
    b: Maze,
)
    requires
        lower <= higher,
        a.grid.wf(),
        b.grid.wf(),
        a.grid.spec_width() == b.grid.spec_width() == spec_span(cols),
        a.grid.spec_height() == b.grid.spec_height() == spec_span(rows),
        (a.grid.spec_cells(), a.spawn) == generated(cols, rows, higher, seed),
        (b.grid.spec_cells(), b.spawn) == generated(cols, rows, lower, seed),
    ensures
        forall|c: Coord| #[trigger] a.grid.open_at(c) ==> b.grid.open_at(c),
{
    let (w, h) = (spec_span(cols), spec_span(rows));
    let solid = Seq::new((w * h) as nat, |i: int| Cell::Wall);
    let carve = carved_result(w, (w - 1) / 2, (h - 1) / 2, seed, solid, Seq::empty());
    lemma_thinned_lower(w, h, higher as int, lower as int, seed, carve.3, carve.0);
    assert forall|c: Coord| #[trigger] a.grid.open_at(c) implies b.grid.open_at(c) by {
        a.grid.lemma_index(c.x as int, c.y as int);
    }
}

/// Thinning sweeps the interior walls in the order the seeded generator
/// shuffles them, not in storage order: with more walls than the target, it
/// comes to an end, and what it leaves is what sweeping the shuffled list
/// until the end leaves; the one shuffle is the one draw it makes.
pub proof fn lemma_thinning_sweeps_shuffled_walls(w: int, h: int, t: int, seed: u64, made: Seq<Draw>, cells: Seq<Cell>)
    requires
        interior_walls_listed(w, h, cells, w * h).len() > t,
    ensures
        ({
            let listed = interior_walls_listed(w, h, cells, w * h);
            let order = shuffled(seed, made, listed);
            &&& exists|k: nat| (#[trigger] thin_after(w, h, t, order, cells, listed.len() as int, k)).2
            &&& forall|k: nat|
                (#[trigger] thin_after(w, h, t, order, cells, listed.len() as int, k)).2 ==> thinned(
                    w,
                    h,
                    t,
                    seed,
                    made,
                    cells,
                ).0 == thin_after(w, h, t, order, cells, listed.len() as int, k).0
            &&& thinned(w, h, t, seed, made, cells).1 == made.push(Draw::Shuffle(listed.len() as usize))
        }),
{
    let listed = interior_walls_listed(w, h, cells, w * h);
    let order = shuffled(seed, made, listed);
    let l = listed.len() as int;
    lemma_thin_ends(w, h, t, order, cells, l);
    assert forall|k: nat| (#[trigger] thin_after(w, h, t, order, cells, l, k)).2 implies thinned(
        w,
        h,
        t,
        seed,
        made,
        cells,
    ).0 == thin_after(w, h, t, order, cells, l, k).0 by {
        lemma_thin_over_at(w, h, t, order, cells, l, k);
    }
}

} // verus!
