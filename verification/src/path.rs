//! A* over the maze grid.
//!
//! Moves are the four orthogonal steps at unit cost, so Manhattan distance is
//! an exact lower bound on what is left: A* with it is admissible and
//! consistent, and a cell never needs reopening once it has been settled.
//! [`find_path`] proves the consequence: the route it returns is a shortest
//! one, and it returns none exactly when there is none. It also proves which
//! route: the one [`route_found`] describes, with frontier ties broken by
//! estimate, then remaining distance, then cell index.

use vstd::prelude::*;

use crate::grid::{Coord, Grid, adjacent, count_true, lemma_count_true_bound, lemma_count_true_mark,
    lemma_count_true_none, lemma_count_true_subset, step_dx, step_dy, unmarked};
use crate::walk::{
    is_walk, lemma_adjacent_is_neighbour, lemma_closed_contains_reachable, lemma_neighbour_adjacent,
    lemma_reachable_refl, lemma_reachable_step, neighbour, reachable, walk_between,
};

verus! {

/// A route through the maze, and what it cost to find.
#[derive(Clone, Debug, PartialEq, Eq)]
pub struct Route {
    /// The cells to walk, starting with the start cell and ending with the goal.
    /// Never empty: a route from a cell to itself is that one cell.
    pub cells: Vec<Coord>,
    /// How many cells the search settled before it arrived: at least one,
    /// and never more than the number of open cells in the grid.
    pub expanded: usize,
}

impl Route {
    /// The next cell to head for, or `None` once the route has been walked.
    ///
    /// The start cell is not a step, so this is the second cell of the route.
    pub fn next_step(&self) -> (r: Option<Coord>)
        ensures
            r == (if self.cells@.len() > 1 {
                Some(self.cells@[1])
            } else {
                None
            }),
    {
        if self.cells.len() > 1 {
            Some(self.cells[1])
        } else {
            None
        }
    }

    /// Number of steps to walk, which is one less than the number of cells.
    pub fn steps(&self) -> (r: usize)
        requires
            self.cells@.len() > 0,
        ensures
            r == self.cells@.len() - 1,
    {
        self.cells.len() - 1
    }
}

/// Manhattan distance between two cells.
pub open spec fn manhattan(a: Coord, b: Coord) -> int {
    (if a.x >= b.x {
        a.x - b.x
    } else {
        b.x - a.x
    }) + (if a.y >= b.y {
        a.y - b.y
    } else {
        b.y - a.y
    })
}

/// Every walk from `start` to `c` takes at least `n` steps.
pub open spec fn no_shorter_walk(g: Grid, start: Coord, c: Coord, n: int) -> bool {
    forall|q: Seq<Coord>| #[trigger] walk_between(g, q, start, c) ==> n <= q.len() - 1
}

/// Some walk from `start` to `c` takes exactly `n` steps.
pub open spec fn walk_of_length(g: Grid, start: Coord, c: Coord, n: int) -> bool {
    exists|q: Seq<Coord>| #[trigger] walk_between(g, q, start, c) && q.len() == n + 1
}

/// A cell the search has found some route to.
spec fn reached(cost: Seq<i32>, i: int) -> bool {
    cost[i] != i32::MAX
}

/// A frontier entry `(estimate, heuristic, index)` for a reached cell whose
/// estimate is no better than its best known cost allows.
spec fn entry_ok(g: Grid, goal: Coord, cost: Seq<i32>, e: (i32, i32, usize)) -> bool {
    &&& e.2 < g.size()
    &&& reached(cost, e.2 as int)
    &&& e.1 == manhattan(g.coord_of(e.2 as int), goal)
    &&& e.0 >= cost[e.2 as int] + e.1
}

/// `a` is popped no later than `b`: the tuple order of the frontier.
pub open spec fn entry_le(a: (i32, i32, usize), b: (i32, i32, usize)) -> bool {
    ||| a.0 < b.0
    ||| a.0 == b.0 && a.1 < b.1
    ||| a.0 == b.0 && a.1 == b.1 && a.2 <= b.2
}

/// The fixed facts of a search from `start` to `goal`, and the sizes and
/// bookkeeping of its arrays.
spec fn inv_base(
    g: Grid,
    start: Coord,
    goal: Coord,
    cost: Seq<i32>,
    came: Seq<usize>,
    settled: Seq<bool>,
    expanded: int,
) -> bool {
    let n = g.size();
    let si = g.index_of(start);
    &&& g.wf()
    &&& n + g.spec_width() + g.spec_height() <= i32::MAX
    &&& g.open_at(start)
    &&& g.open_at(goal)
    &&& 0 <= si < n
    &&& g.coord_of(si) == start
    &&& 0 <= g.index_of(goal) < n
    &&& g.coord_of(g.index_of(goal)) == goal
    &&& cost.len() == n
    &&& came.len() == n
    &&& settled.len() == n
    &&& cost[si] == 0
    &&& came[si] == usize::MAX
    &&& expanded == count_true(settled)
    &&& !settled[g.index_of(goal)]
    &&& expanded == 0 ==> forall|i: int| 0 <= i < n && reached(cost, i) ==> i == si
    &&& expanded > 0 ==> settled[si]
}

/// Every reached cell is open and has a walk of its cost from the start.
spec fn inv_reached(g: Grid, start: Coord, cost: Seq<i32>, expanded: int) -> bool {
    forall|i: int|
        0 <= i < g.size() && #[trigger] reached(cost, i) ==> {
            &&& g.open_at(g.coord_of(i))
            &&& 0 <= cost[i] <= expanded
            &&& walk_of_length(g, start, g.coord_of(i), cost[i] as int)
        }
}

/// Every reached cell but the start was reached from a settled neighbour,
/// one step cheaper.
spec fn inv_came(g: Grid, start: Coord, cost: Seq<i32>, came: Seq<usize>, settled: Seq<bool>) -> bool {
    forall|i: int|
        0 <= i < g.size() && reached(cost, i) && i != g.index_of(start) ==> {
            &&& (#[trigger] came[i]) < g.size()
            &&& settled[came[i] as int]
            &&& reached(cost, came[i] as int)
            &&& cost[came[i] as int] + 1 == cost[i]
            &&& adjacent(g.coord_of(came[i] as int), g.coord_of(i))
        }
}

/// Every settled cell has its shortest cost.
spec fn inv_settled(g: Grid, start: Coord, cost: Seq<i32>, settled: Seq<bool>) -> bool {
    forall|i: int|
        0 <= i < g.size() && #[trigger] settled[i] ==> reached(cost, i) && no_shorter_walk(
            g,
            start,
            g.coord_of(i),
            cost[i] as int,
        )
}

/// Every settled cell but `skip` has had its open neighbours relaxed.
spec fn inv_relaxed(g: Grid, cost: Seq<i32>, settled: Seq<bool>, skip: int) -> bool {
    forall|i: int, k: int|
        0 <= i < g.size() && i != skip && settled[i] && 0 <= k < 4 && #[trigger] g.open_at(
            neighbour(g.coord_of(i), k),
        ) ==> {
            let j = g.index_of(neighbour(g.coord_of(i), k));
            &&& reached(cost, j)
            &&& !settled[j] ==> cost[j] <= cost[i] + 1
        }
}

/// Every reached, unsettled cell has a frontier entry at its current cost.
spec fn inv_covered(g: Grid, cost: Seq<i32>, settled: Seq<bool>, frontier: Seq<(i32, i32, usize)>) -> bool {
    forall|i: int|
        0 <= i < g.size() && reached(cost, i) && !#[trigger] settled[i] ==> exists|j: int|
            0 <= j < frontier.len() && (#[trigger] frontier[j]).2 == i && frontier[j].0 == cost[i]
                + frontier[j].1
}

/// Every frontier entry is well formed.
spec fn inv_entries(g: Grid, goal: Coord, cost: Seq<i32>, frontier: Seq<(i32, i32, usize)>) -> bool {
    forall|j: int| 0 <= j < frontier.len() ==> entry_ok(g, goal, cost, #[trigger] frontier[j])
}

/// The search invariant. `skip` names a just-settled cell whose neighbours
/// are still being relaxed (or `-1` for none).
spec fn search_inv(
    g: Grid,
    start: Coord,
    goal: Coord,
    cost: Seq<i32>,
    came: Seq<usize>,
    settled: Seq<bool>,
    frontier: Seq<(i32, i32, usize)>,
    expanded: int,
    skip: int,
) -> bool {
    &&& inv_base(g, start, goal, cost, came, settled, expanded)
    &&& inv_reached(g, start, cost, expanded)
    &&& inv_came(g, start, cost, came, settled)
    &&& inv_settled(g, start, cost, settled)
    &&& inv_relaxed(g, cost, settled, skip)
    &&& inv_covered(g, cost, settled, frontier)
    &&& inv_entries(g, goal, cost, frontier)
}

/// Manhattan distance between two in-grid cells.
fn heuristic(grid: &Grid, from: Coord, to: Coord) -> (r: i32)
    requires
        grid.wf(),
        grid.in_grid(from),
        grid.in_grid(to),
        grid.size() + grid.spec_width() + grid.spec_height() <= i32::MAX,
    ensures
        r == manhattan(from, to),
        0 <= r <= grid.spec_width() + grid.spec_height() - 2,
{
    let dx = if from.x >= to.x {
        from.x - to.x
    } else {
        to.x - from.x
    };
    let dy = if from.y >= to.y {
        from.y - to.y
    } else {
        to.y - from.y
    };
    dx + dy
}

/// A walk of `n` steps covers at most `n` in Manhattan distance.
proof fn lemma_walk_manhattan(g: Grid, q: Seq<Coord>)
    requires
        is_walk(g, q),
    ensures
        manhattan(q[0], q.last()) <= q.len() - 1,
    decreases q.len(),
{
    if q.len() > 1 {
        let p = q.drop_last();
        lemma_subwalk(g, q, 0, q.len() - 1);
        assert(p =~= q.subrange(0, q.len() - 1));
        lemma_walk_manhattan(g, p);
        let i = q.len() - 2;
        assert(adjacent(q[i], q[i + 1]));
        let k = choose|k: int|
            0 <= k < 4 && #[trigger] step_dx(k) == q[i + 1].x - q[i].x && step_dy(k) == q[i + 1].y
                - q[i].y;
    }
}

/// A contiguous piece of a walk is a walk.
proof fn lemma_subwalk(g: Grid, q: Seq<Coord>, a: int, b: int)
    requires
        is_walk(g, q),
        0 <= a < b <= q.len(),
    ensures
        is_walk(g, q.subrange(a, b)),
{
    let s = q.subrange(a, b);
    assert forall|i: int| 0 <= i < s.len() implies g.open_at(#[trigger] s[i]) by {
        assert(s[i] == q[a + i]);
    }
    assert forall|i: int| 0 <= i < s.len() - 1 implies #[trigger] adjacent(s[i], s[i + 1]) by {
        assert(s[i] == q[a + i] && s[i + 1] == q[a + i + 1]);
        assert(adjacent(q[a + i], q[a + i + 1]));
    }
}

/// A walk that starts on a settled cell and ends on an unsettled one crosses
/// from settled to unsettled somewhere along it.
proof fn lemma_first_unsettled(g: Grid, settled: Seq<bool>, q: Seq<Coord>) -> (k: int)
    requires
        g.wf(),
        is_walk(g, q),
        settled.len() == g.size(),
        forall|i: int| 0 <= i < q.len() ==> g.in_grid(#[trigger] q[i]),
        settled[g.index_of(q[0])],
        !settled[g.index_of(q.last())],
    ensures
        1 <= k < q.len(),
        settled[g.index_of(q[k - 1])],
        !settled[g.index_of(q[k])],
    decreases q.len(),
{
    let last = q.len() - 1;
    if settled[g.index_of(q[last - 1])] {
        last
    } else {
        let p = q.drop_last();
        lemma_subwalk(g, q, 0, last);
        assert(p =~= q.subrange(0, last));
        lemma_first_unsettled(g, settled, p)
    }
}

/// `a` is popped strictly before `b`.
pub open spec fn entry_lt(a: (i32, i32, usize), b: (i32, i32, usize)) -> bool {
    a.0 < b.0 || (a.0 == b.0 && (a.1 < b.1 || (a.1 == b.1 && a.2 < b.2)))
}

/// Position of the first entry of `s` that comes first in tuple order.
pub open spec fn first_min(s: Seq<(i32, i32, usize)>) -> int
    decreases s.len(),
{
    if s.len() <= 1 {
        0
    } else {
        let m = first_min(s.drop_last());
        if entry_lt(s.last(), s[m]) {
            s.len() - 1
        } else {
            m
        }
    }
}

/// `s` with its entry at `b` taken out and its last entry moved into the gap.
pub open spec fn swap_removed(s: Seq<(i32, i32, usize)>, b: int) -> Seq<(i32, i32, usize)> {
    s.update(b, s.last()).drop_last()
}

/// The first minimum lies inside the sequence.
proof fn lemma_first_min_bound(s: Seq<(i32, i32, usize)>)
    requires
        s.len() > 0,
    ensures
        0 <= first_min(s) < s.len(),
    decreases s.len(),
{
    if s.len() > 1 {
        lemma_first_min_bound(s.drop_last());
    }
}

/// A search in progress: the best known cost of each cell, the cell each
/// was reached from, which cells are settled, the frontier in storage order,
/// how many cells have been settled, and whether the goal has been.
pub type SearchState = (Seq<i32>, Seq<usize>, Seq<bool>, Seq<(i32, i32, usize)>, nat, bool);

/// The search before anything is settled: only `start` is reached, at no
/// cost, and it is the one frontier entry.
pub open spec fn search_start(g: Grid, start: Coord, goal: Coord) -> SearchState {
    let si = g.index_of(start);
    let h = manhattan(start, goal);
    (
        Seq::new(g.size() as nat, |i: int| if i == si { 0i32 } else { i32::MAX }),
        Seq::new(g.size() as nat, |i: int| usize::MAX),
        Seq::new(g.size() as nat, |i: int| false),
        seq![(h as i32, h as i32, si as usize)],
        0,
        false,
    )
}

/// Relaxing the step from settled cell `index` to its open neighbour `next`:
/// where that is a shorter way to an unsettled cell, record it and put the
/// cell on the frontier.
pub open spec fn relax_one(g: Grid, goal: Coord, st: SearchState, index: int, next: Coord) -> SearchState {
    let ni = g.index_of(next);
    let nc = st.0[index] + 1;
    if st.2[ni] || nc >= st.0[ni] {
        st
    } else {
        let h = manhattan(next, goal);
        (
            st.0.update(ni, nc as i32),
            st.1.update(ni, index as usize),
            st.2,
            st.3.push(((nc + h) as i32, h as i32, ni as usize)),
            st.4,
            st.5,
        )
    }
}

/// Relaxing the steps from `index` to the first `j` cells of `around`, in
/// order.
pub open spec fn relax_upto(
    g: Grid,
    goal: Coord,
    st: SearchState,
    index: int,
    around: Seq<Coord>,
    j: nat,
) -> SearchState
    decreases j,
{
    if j == 0 {
        st
    } else {
        relax_one(g, goal, relax_upto(g, goal, st, index, around, (j - 1) as nat), index, around[j - 1])
    }
}

/// One round of the search: take the first frontier entry in tuple order;
/// skip it if its cell is settled, otherwise settle the cell and either stop
/// at the goal or relax the steps to its open neighbours in their fixed order.
pub open spec fn search_step(g: Grid, goal: Coord, st: SearchState) -> SearchState {
    let b = first_min(st.3);
    let i = st.3[b].2 as int;
    let rest = swap_removed(st.3, b);
    if st.2[i] {
        (st.0, st.1, st.2, rest, st.4, st.5)
    } else if g.coord_of(i) == goal {
        (st.0, st.1, st.2.update(i, true), rest, st.4 + 1, true)
    } else {
        let around = g.open_neighbour_seq(g.coord_of(i));
        relax_upto(
            g,
            goal,
            (st.0, st.1, st.2.update(i, true), rest, st.4 + 1, false),
            i,
            around,
            around.len(),
        )
    }
}

/// The search has stopped: the goal was settled, or the frontier ran dry.
pub open spec fn search_halted(st: SearchState) -> bool {
    st.5 || st.3.len() == 0
}

/// The search after `k` rounds; a stopped search stays as it is.
pub open spec fn search_after(g: Grid, start: Coord, goal: Coord, k: nat) -> SearchState
    decreases k,
{
    if k == 0 {
        search_start(g, start, goal)
    } else {
        let p = search_after(g, start, goal, (k - 1) as nat);
        if search_halted(p) {
            p
        } else {
            search_step(g, goal, p)
        }
    }
}

/// The route the search finds and how many cells it settled, or `None`:
/// run the search until it stops and, if it settled the goal, follow the
/// cells each was reached from back to the start.
pub open spec fn route_found(g: Grid, start: Coord, goal: Coord) -> Option<(Seq<Coord>, nat)> {
    if !g.open_at(start) || !g.open_at(goal) {
        None
    } else {
        let k = choose|k: nat| search_halted(#[trigger] search_after(g, start, goal, k));
        let st = search_after(g, start, goal, k);
        if st.5 {
            Some((trace(g, st.1, g.index_of(goal), g.size() as nat).reverse(), st.4))
        } else {
            None
        }
    }
}

/// A stopped search stays stopped, and as it was.
proof fn lemma_search_stays(g: Grid, start: Coord, goal: Coord, a: nat, b: nat)
    requires
        a <= b,
        search_halted(search_after(g, start, goal, a)),
    ensures
        search_after(g, start, goal, b) == search_after(g, start, goal, a),
    decreases b - a,
{
    if b > a {
        lemma_search_stays(g, start, goal, a, (b - 1) as nat);
    }
}

/// Once the search has stopped after `k` rounds, the stopping state is the
/// one [`route_found`] reads.
proof fn lemma_route_found_at(g: Grid, start: Coord, goal: Coord, k: nat)
    requires
        g.open_at(start),
        g.open_at(goal),
        search_halted(search_after(g, start, goal, k)),
    ensures
        route_found(g, start, goal) == (if search_after(g, start, goal, k).5 {
            Some(
                (
                    trace(g, search_after(g, start, goal, k).1, g.index_of(goal), g.size() as nat).reverse(),
                    search_after(g, start, goal, k).4,
                ),
            )
        } else {
            None
        }),
{
    let c = choose|c: nat| search_halted(#[trigger] search_after(g, start, goal, c));
    if c <= k {
        lemma_search_stays(g, start, goal, c, k);
    } else {
        lemma_search_stays(g, start, goal, k, c);
    }
}

/// The entry of `frontier` that comes first in tuple order, taken out.
fn pop_min(frontier: &mut Vec<(i32, i32, usize)>) -> (e: (i32, i32, usize))
    requires
        old(frontier)@.len() > 0,
    ensures
        0 <= first_min(old(frontier)@) < old(frontier)@.len(),
        e == old(frontier)@[first_min(old(frontier)@)],
        final(frontier)@ == swap_removed(old(frontier)@, first_min(old(frontier)@)),
        old(frontier)@.contains(e),
        forall|j: int| 0 <= j < old(frontier)@.len() ==> entry_le(e, #[trigger] old(frontier)@[j]),
        final(frontier)@.len() == old(frontier)@.len() - 1,
        forall|x: (i32, i32, usize)|
            #[trigger] old(frontier)@.contains(x) && x != e ==> final(frontier)@.contains(x),
        forall|x: (i32, i32, usize)|
            #[trigger] final(frontier)@.contains(x) ==> old(frontier)@.contains(x),
{
    let mut best: usize = 0;
    let mut j: usize = 1;
    proof {
        assert(frontier@.take(1).len() == 1);
    }
    while j < frontier.len()
        invariant
            frontier@.len() > 0,
            best < frontier@.len(),
            1 <= j <= frontier@.len(),
            best == first_min(frontier@.take(j as int)),
            forall|i: int| 0 <= i < j ==> entry_le(frontier@[best as int], #[trigger] frontier@[i]),
        decreases frontier@.len() - j,
    {
        proof {
            let t = frontier@.take(j + 1);
            assert(t.drop_last() =~= frontier@.take(j as int));
            lemma_first_min_bound(frontier@.take(j as int));
        }
        let (a, b) = (frontier[j], frontier[best]);
        if a.0 < b.0 || (a.0 == b.0 && (a.1 < b.1 || (a.1 == b.1 && a.2 < b.2))) {
            best = j;
        }
        j = j + 1;
    }
    proof {
        assert(frontier@.take(frontier@.len() as int) =~= frontier@);
    }
    let ghost before = frontier@;
    let e = frontier.swap_remove(best);
    proof {
        assert(before.contains(e)) by {
            assert(before[best as int] == e);
        }
        assert forall|x: (i32, i32, usize)| #[trigger] before.contains(x) && x != e implies frontier@.contains(
            x,
        ) by {
            let i = choose|i: int| 0 <= i < before.len() && before[i] == x;
            if i == before.len() - 1 {
                if best as int != before.len() - 1 {
                    assert(frontier@[best as int] == x);
                }
            } else {
                assert(i != best);
                assert(frontier@[i] == x);
            }
        }
        assert forall|x: (i32, i32, usize)| #[trigger] frontier@.contains(x) implies before.contains(x) by {
            let i = choose|i: int| 0 <= i < frontier@.len() && frontier@[i] == x;
            if i == best {
                assert(before[before.len() - 1] == x);
            } else {
                assert(before[i] == x);
            }
        }
    }
    e
}

/// The cells met following `came` back from index `i`, at most `fuel` steps:
/// `i`'s own cell first, stopping at a cell with no predecessor.
pub open spec fn trace(g: Grid, came: Seq<usize>, i: int, fuel: nat) -> Seq<Coord>
    decreases fuel,
{
    if fuel == 0 || came[i] == usize::MAX {
        seq![g.coord_of(i)]
    } else {
        seq![g.coord_of(i)] + trace(g, came, came[i] as int, (fuel - 1) as nat)
    }
}

/// Walks the `came` chain back from `goal` to the start and turns it the
/// right way round.
fn unwind(
    grid: &Grid,
    came: &Vec<usize>,
    goal: usize,
    Ghost(start): Ghost<Coord>,
    Ghost(cost): Ghost<Seq<i32>>,
) -> (cells: Vec<Coord>)
    requires
        grid.wf(),
        goal < grid.size(),
        came@.len() == grid.size(),
        cost.len() == grid.size(),
        grid.in_grid(start),
        came@[grid.index_of(start)] == usize::MAX,
        cost[grid.index_of(start)] == 0,
        reached(cost, goal as int),
        grid.open_at(grid.coord_of(goal as int)),
        forall|i: int| 0 <= i < grid.size() && #[trigger] reached(cost, i) ==> 0 <= cost[i],
        forall|i: int|
            0 <= i < grid.size() && reached(cost, i) && i != grid.index_of(start) ==> {
                &&& (#[trigger] came@[i]) < grid.size()
                &&& reached(cost, came@[i] as int)
                &&& cost[came@[i] as int] + 1 == cost[i]
                &&& grid.open_at(grid.coord_of(came@[i] as int))
                &&& adjacent(grid.coord_of(came@[i] as int), grid.coord_of(i))
            },
        cost[goal as int] <= grid.size(),
    ensures
        walk_between(*grid, cells@, start, grid.coord_of(goal as int)),
        cells@.len() == cost[goal as int] + 1,
        cells@ == trace(*grid, came@, goal as int, grid.size() as nat).reverse(),
{
    let ghost g = *grid;
    let ghost si = grid.index_of(start);
    proof {
        grid.lemma_index(start.x as int, start.y as int);
        grid.lemma_coord(goal as int);
    }
    let mut back: Vec<Coord> = Vec::new();
    back.push(grid.coord_at(goal));
    let mut index = goal;
    proof {
        assert(back@.drop_last() + trace(g, came@, goal as int, g.size() as nat) =~= trace(
            g,
            came@,
            goal as int,
            g.size() as nat,
        ));
    }
    while came[index] != usize::MAX
        invariant
            grid.wf(),
            g == *grid,
            came@.len() == g.size(),
            cost.len() == g.size(),
            0 <= si < g.size(),
            g.coord_of(si) == start,
            came@[si] == usize::MAX,
            cost[si] == 0,
            index < g.size(),
            reached(cost, index as int),
            g.open_at(g.coord_of(index as int)),
            forall|i: int| 0 <= i < g.size() && #[trigger] reached(cost, i) ==> 0 <= cost[i],
            forall|i: int|
                0 <= i < g.size() && reached(cost, i) && i != si ==> {
                    &&& (#[trigger] came@[i]) < g.size()
                    &&& reached(cost, came@[i] as int)
                    &&& cost[came@[i] as int] + 1 == cost[i]
                    &&& g.open_at(g.coord_of(came@[i] as int))
                    &&& adjacent(g.coord_of(came@[i] as int), g.coord_of(i))
                },
            back@.len() + cost[index as int] == cost[goal as int] + 1,
            is_walk(g, back@.reverse()),
            back@[0] == g.coord_of(goal as int),
            back@.last() == g.coord_of(index as int),
            cost[goal as int] <= g.size(),
            trace(g, came@, goal as int, g.size() as nat) == back@.drop_last() + trace(
                g,
                came@,
                index as int,
                (g.size() - (back@.len() - 1)) as nat,
            ),
        decreases cost[index as int],
    {
        let ghost prior = back@;
        let ghost here = index;
        proof {
            assert(here != si);
            let fuel = (g.size() - (prior.len() - 1)) as nat;
            assert(fuel > 0);
            assert(trace(g, came@, here as int, fuel) == seq![g.coord_of(here as int)] + trace(
                g,
                came@,
                came@[here as int] as int,
                (fuel - 1) as nat,
            ));
        }
        index = came[index];
        back.push(grid.coord_at(index));
        proof {
            grid.lemma_coord(here as int);
            assert(back@.drop_last() =~= prior.drop_last() + seq![g.coord_of(here as int)]);
            assert(prior.drop_last() + seq![g.coord_of(here as int)] + trace(
                g,
                came@,
                index as int,
                (g.size() - (back@.len() - 1)) as nat,
            ) =~= prior.drop_last() + (seq![g.coord_of(here as int)] + trace(
                g,
                came@,
                index as int,
                (g.size() - (back@.len() - 1)) as nat,
            )));
            let r = back@.reverse();
            let pr = prior.reverse();
            assert(r =~= seq![g.coord_of(index as int)] + pr);
            crate::walk::lemma_adjacent_symmetric(g.coord_of(index as int), g.coord_of(here as int));
            assert forall|i: int| 0 <= i < r.len() implies g.open_at(#[trigger] r[i]) by {
                if i > 0 {
                    assert(r[i] == pr[i - 1]);
                }
            }
            assert forall|i: int| 0 <= i < r.len() - 1 implies #[trigger] adjacent(r[i], r[i + 1]) by {
                if i > 0 {
                    let j = i - 1;
                    assert(r[i] == pr[j] && r[i + 1] == pr[j + 1]);
                    assert(adjacent(pr[j], pr[j + 1]));
                } else {
                    assert(r[1] == pr[0]);
                    assert(pr[0] == prior.last());
                }
            }
        }
    }
    proof {
        assert(index as int == si);
        assert(back@ =~= back@.drop_last() + seq![back@.last()]);
    }
    let mut cells: Vec<Coord> = Vec::new();
    let mut j: usize = back.len();
    while j > 0
        invariant
            j <= back@.len(),
            cells@ == back@.reverse().subrange(0, back@.len() - j),
        decreases j,
    {
        j = j - 1;
        cells.push(back[j]);
        proof {
            assert(cells@ =~= back@.reverse().subrange(0, back@.len() - j));
        }
    }
    proof {
        assert(cells@ =~= back@.reverse());
    }
    cells
}

/// A vector of `n` copies of `value`.
fn filled<T: Copy>(n: usize, value: T) -> (v: Vec<T>)
    ensures
        v@.len() == n,
        forall|i: int| 0 <= i < n ==> #[trigger] v@[i] == value,
{
    let mut v: Vec<T> = Vec::new();
    let mut i: usize = 0;
    while i < n
        invariant
            i <= n,
            v@.len() == i,
            forall|j: int| 0 <= j < i ==> #[trigger] v@[j] == value,
        decreases n - i,
    {
        v.push(value);
        i = i + 1;
    }
    v
}

/// A walk of `n` steps to `b` extends by one step to an open neighbour `c`.
proof fn lemma_walk_extend(g: Grid, start: Coord, b: Coord, c: Coord, n: int)
    requires
        walk_of_length(g, start, b, n),
        adjacent(b, c),
        g.open_at(c),
    ensures
        walk_of_length(g, start, c, n + 1),
{
    let p = choose|p: Seq<Coord>| #[trigger] walk_between(g, p, start, b) && p.len() == n + 1;
    let q = p.push(c);
    assert forall|i: int| 0 <= i < q.len() implies g.open_at(#[trigger] q[i]) by {
        if i < p.len() {
            assert(q[i] == p[i]);
        }
    }
    assert forall|i: int| 0 <= i < q.len() - 1 implies #[trigger] adjacent(q[i], q[i + 1]) by {
        if i < p.len() - 1 {
            assert(q[i] == p[i] && q[i + 1] == p[i + 1]);
            assert(adjacent(p[i], p[i + 1]));
        }
    }
    assert(walk_between(g, q, start, c));
}

/// The cell A* is about to settle already has its shortest cost: no walk from
/// the start reaches it in fewer steps.
proof fn lemma_settle_optimal(
    g: Grid,
    start: Coord,
    goal: Coord,
    cost: Seq<i32>,
    came: Seq<usize>,
    settled: Seq<bool>,
    frontier: Seq<(i32, i32, usize)>,
    expanded: int,
    e: (i32, i32, usize),
)
    requires
        search_inv(g, start, goal, cost, came, settled, frontier, expanded, -1),
        frontier.contains(e),
        forall|j: int| 0 <= j < frontier.len() ==> entry_le(e, #[trigger] frontier[j]),
        !settled[e.2 as int],
    ensures
        no_shorter_walk(g, start, g.coord_of(e.2 as int), cost[e.2 as int] as int),
{
    let index = e.2 as int;
    let u = g.coord_of(index);
    let si = g.index_of(start);
    let j0 = choose|j: int| 0 <= j < frontier.len() && frontier[j] == e;
    assert(entry_ok(g, goal, cost, frontier[j0]));
    g.lemma_coord(index);
    assert forall|q: Seq<Coord>| #[trigger] walk_between(g, q, start, u) implies cost[index] <= q.len() - 1 by {
        if expanded == 0 {
            assert(index == si);
        } else {
            assert forall|i: int| 0 <= i < q.len() implies g.in_grid(#[trigger] q[i]) by {
                assert(g.open_at(q[i]));
            }
            g.lemma_index(start.x as int, start.y as int);
            assert(g.index_of(q[0]) == si);
            assert(g.index_of(q.last()) == index);
            let k = lemma_first_unsettled(g, settled, q);
            let (p, v) = (q[k - 1], q[k]);
            let (pi, vi) = (g.index_of(p), g.index_of(v));
            g.lemma_index(p.x as int, p.y as int);
            g.lemma_index(v.x as int, v.y as int);
            assert(g.coord_of(pi) == p);
            assert(g.coord_of(vi) == v);
            // The prefix up to `p` bounds the settled cost of `p`.
            lemma_subwalk(g, q, 0, k);
            let pre = q.subrange(0, k);
            assert(walk_between(g, pre, start, p));
            assert(no_shorter_walk(g, start, p, cost[pi] as int));
            assert(cost[pi] <= k - 1);
            // `v` was relaxed from `p`.
            assert(adjacent(q[k - 1], q[(k - 1) + 1]));
            lemma_adjacent_is_neighbour(g, p, v);
            let kk = choose|kk: int| 0 <= kk < 4 && v == #[trigger] neighbour(p, kk);
            assert(g.open_at(neighbour(g.coord_of(pi), kk)));
            assert(reached(cost, vi));
            assert(cost[vi] <= k);
            // `v` sits on the frontier with its current cost.
            let jv = choose|j: int|
                0 <= j < frontier.len() && (#[trigger] frontier[j]).2 == vi && frontier[j].0
                    == cost[vi] + frontier[j].1;
            assert(entry_ok(g, goal, cost, frontier[jv]));
            assert(entry_le(e, frontier[jv]));
            // The rest of the walk bounds how much nearer `u` is than `v`.
            lemma_subwalk(g, q, k, q.len() as int);
            let post = q.subrange(k, q.len() as int);
            lemma_walk_manhattan(g, post);
            assert(post[0] == v && post.last() == u);
        }
    }
}

/// Finds a shortest route from `start` to `goal`, or `None` if there is none.
///
/// `None` covers every way there can be no route: either end is a wall (or
/// outside the grid, which reads the same), or the two are in components
/// that nothing connects. The search's integer costs bound the grid it can
/// run on: cell count plus width plus height must fit in an `i32`.
pub fn find_path(grid: &Grid, start: Coord, goal: Coord) -> (r: Option<Route>)
    requires
        grid.wf(),
        grid.size() + grid.spec_width() + grid.spec_height() <= i32::MAX,
    ensures
        r.is_some() == reachable(*grid, start, goal),
        r matches Some(route) ==> {
            &&& walk_between(*grid, route.cells@, start, goal)
            &&& no_shorter_walk(*grid, start, goal, route.cells@.len() - 1)
            &&& 1 <= route.expanded <= grid.open_total()
        },
        match r {
            Some(route) => route_found(*grid, start, goal) == Some((route.cells@, route.expanded as nat)),
            None => route_found(*grid, start, goal) is None,
        },
{
    let ghost g = *grid;
    if grid.is_wall(start) || grid.is_wall(goal) {
        proof {
            if reachable(g, start, goal) {
                crate::walk::lemma_reachable_open(g, start, goal);
            }
        }
        return None;
    }
    let n = (grid.width() * grid.height()) as usize;
    let mut cost = filled(n, i32::MAX);
    let mut came = filled(n, usize::MAX);
    let mut settled = unmarked(n);
    let mut expanded: usize = 0;
    let mut frontier: Vec<(i32, i32, usize)> = Vec::new();
    let si = grid.index(start);
    let gi = grid.index(goal);
    cost.set(si, 0);
    let h0 = heuristic(grid, start, goal);
    frontier.push((h0, h0, si));
    proof {
        grid.lemma_index(start.x as int, start.y as int);
        grid.lemma_index(goal.x as int, goal.y as int);
        lemma_count_true_none(settled@);
        lemma_reachable_refl(g, start);
        assert(walk_between(g, seq![start], start, start));
        assert(frontier@[0] == (h0, h0, si));
        assert(search_inv(g, start, goal, cost@, came@, settled@, frontier@, expanded as int, -1));
    }
    let ghost mut rounds: nat = 0;
    proof {
        let st = search_start(g, start, goal);
        assert(cost@ =~= st.0);
        assert(came@ =~= st.1);
        assert(settled@ =~= st.2);
        assert(frontier@ =~= st.3);
    }
    while frontier.len() > 0
        invariant
            g == *grid,
            n == g.size(),
            si == g.index_of(start),
            gi == g.index_of(goal),
            search_inv(g, start, goal, cost@, came@, settled@, frontier@, expanded as int, -1),
            (cost@, came@, settled@, frontier@, expanded as nat, false) == search_after(g, start, goal, rounds),
        decreases 4 * (n - expanded) + frontier@.len(),
    {
        proof {
            lemma_count_true_bound(settled@);
        }
        let ghost before = frontier@;
        let ghost now = search_after(g, start, goal, rounds);
        let e = pop_min(&mut frontier);
        let index = e.2;
        proof {
            assert(!search_halted(now));
            assert(search_after(g, start, goal, rounds + 1) == search_step(g, goal, now));
        }
        proof {
            let j = choose|j: int| 0 <= j < before.len() && before[j] == e;
            assert(entry_ok(g, goal, cost@, before[j]));
        }
        if settled[index] {
            proof {
                assert forall|i: int|
                    0 <= i < n && reached(cost@, i) && !#[trigger] settled@[i] implies exists|j: int|
                        0 <= j < frontier@.len() && (#[trigger] frontier@[j]).2 == i
                            && frontier@[j].0 == cost@[i] + frontier@[j].1 by {
                    let j = choose|j: int|
                        0 <= j < before.len() && (#[trigger] before[j]).2 == i && before[j].0
                            == cost@[i] + before[j].1;
                    assert(before.contains(before[j]));
                    assert(frontier@.contains(before[j]));
                }
                assert forall|j: int| 0 <= j < frontier@.len() implies entry_ok(
                    g,
                    goal,
                    cost@,
                    #[trigger] frontier@[j],
                ) by {
                    assert(frontier@.contains(frontier@[j]));
                    let i = choose|i: int| 0 <= i < before.len() && before[i] == frontier@[j];
                    assert(entry_ok(g, goal, cost@, before[i]));
                }
            }
            proof {
                rounds = rounds + 1;
            }
            continue;
        }
        proof {
            lemma_settle_optimal(g, start, goal, cost@, came@, settled@, before, expanded as int, e);
            lemma_count_true_mark(settled@, index as int);
        }
        let ghost was = settled@;
        let ghost old_expanded = expanded;
        settled.set(index, true);
        expanded = expanded + 1;
        let at = grid.coord_at(index);
        if at == goal {
            let cells = unwind(grid, &came, index, Ghost(start), Ghost(cost@));
            proof {
                let om = g.open_mask();
                assert forall|i: int| 0 <= i < settled@.len() && #[trigger] settled@[i] implies om[i] by {
                    g.lemma_coord(i);
                    g.lemma_open_mask(g.coord_of(i));
                }
                lemma_count_true_subset(settled@, om);
                g.lemma_coord(index as int);
                assert(search_after(g, start, goal, rounds + 1) == (cost@, came@, settled@, frontier@, expanded as nat, true));
                lemma_route_found_at(g, start, goal, rounds + 1);
            }
            return Some(Route { cells, expanded });
        }
        let next_cost = cost[index] + 1;
        let around = grid.open_neighbours(at);
        let ghost popped = frontier@;
        let ghost mid: SearchState = (cost@, came@, settled@, frontier@, expanded as nat, false);
        proof {
            lemma_count_true_bound(settled@);
            // Entries still on the frontier, and the reached cells they stand for.
            assert forall|i: int|
                0 <= i < n && reached(cost@, i) && !#[trigger] settled@[i] implies exists|j: int|
                    0 <= j < frontier@.len() && (#[trigger] frontier@[j]).2 == i && frontier@[j].0
                        == cost@[i] + frontier@[j].1 by {
                let j = choose|j: int|
                    0 <= j < before.len() && (#[trigger] before[j]).2 == i && before[j].0 == cost@[i]
                        + before[j].1;
                assert(before.contains(before[j]));
                assert(frontier@.contains(before[j]));
            }
            assert forall|j: int| 0 <= j < frontier@.len() implies entry_ok(
                g,
                goal,
                cost@,
                #[trigger] frontier@[j],
            ) by {
                assert(frontier@.contains(frontier@[j]));
                let i = choose|i: int| 0 <= i < before.len() && before[i] == frontier@[j];
                assert(entry_ok(g, goal, cost@, before[i]));
            }
            assert(inv_base(g, start, goal, cost@, came@, settled@, expanded as int));
            assert(inv_reached(g, start, cost@, expanded as int));
            assert(inv_came(g, start, cost@, came@, settled@));
            assert(inv_settled(g, start, cost@, settled@));
            assert forall|i: int, k: int|
                0 <= i < g.size() && i != index && settled@[i] && 0 <= k < 4 && #[trigger] g.open_at(
                    neighbour(g.coord_of(i), k),
                ) implies {
                    let jn = g.index_of(neighbour(g.coord_of(i), k));
                    &&& reached(cost@, jn)
                    &&& !settled@[jn] ==> cost@[jn] <= cost@[i] + 1
                } by {
                assert(was[i]);
                let jn = g.index_of(neighbour(g.coord_of(i), k));
                g.lemma_coord(i);
                lemma_neighbour_adjacent(g, g.coord_of(i), k);
                g.lemma_index(neighbour(g.coord_of(i), k).x as int, neighbour(g.coord_of(i), k).y as int);
                if !settled@[jn] {
                    assert(!was[jn]);
                }
            }
            assert(inv_relaxed(g, cost@, settled@, index as int));
            assert(inv_covered(g, cost@, settled@, frontier@));
            assert(inv_entries(g, goal, cost@, frontier@));
        }
        let mut j: usize = 0;
        while j < around.len()
            invariant
                g == *grid,
                n == g.size(),
                si == g.index_of(start),
                gi == g.index_of(goal),
                index < n,
                index != gi,
                at == g.coord_of(index as int),
                g.in_grid(at),
                g.index_of(at) == index,
                settled@[index as int],
                expanded >= 1,
                next_cost == cost@[index as int] + 1,
                next_cost <= expanded,
                around@ == g.open_neighbour_seq(at),
                around@.len() <= 4,
                forall|k: int|
                    0 <= k < around@.len() ==> g.open_at(#[trigger] around@[k]) && adjacent(at, around@[k]),
                forall|c: Coord| adjacent(at, c) && #[trigger] g.open_at(c) ==> around@.contains(c),
                j <= around@.len(),
                frontier@.len() <= popped.len() + j,
                popped.len() + 1 == before.len(),
                expanded == old_expanded + 1,
                expanded <= n,
                search_inv(g, start, goal, cost@, came@, settled@, frontier@, expanded as int, index as int),
                (cost@, came@, settled@, frontier@, expanded as nat, false) == relax_upto(
                    g,
                    goal,
                    mid,
                    index as int,
                    around@,
                    j as nat,
                ),
                forall|k: int|
                    0 <= k < j ==> {
                        let c = g.index_of(#[trigger] around@[k]);
                        &&& reached(cost@, c)
                        &&& !settled@[c] ==> cost@[c] <= next_cost
                    },
            decreases around@.len() - j,
        {
            let next = around[j];
            proof {
                assert(g.open_at(around@[j as int]));
                g.lemma_index(next.x as int, next.y as int);
                lemma_count_true_bound(settled@);
            }
            let ni = grid.index(next);
            proof {
                assert(relax_upto(g, goal, mid, index as int, around@, (j + 1) as nat) == relax_one(
                    g,
                    goal,
                    relax_upto(g, goal, mid, index as int, around@, j as nat),
                    index as int,
                    next,
                ));
            }
            if settled[ni] || next_cost >= cost[ni] {
                j = j + 1;
                continue;
            }
            let remaining = heuristic(grid, next, goal);
            let ghost (c0, f0) = (cost@, frontier@);
            proof {
                assert(g.coord_of(ni as int) == next);
                assert(walk_of_length(g, start, at, cost@[index as int] as int));
                lemma_walk_extend(g, start, at, next, cost@[index as int] as int);
            }
            cost.set(ni, next_cost);
            came.set(ni, index);
            let estimate = next_cost + remaining;
            frontier.push((estimate, remaining, ni));
            proof {
                let st1 = relax_upto(g, goal, mid, index as int, around@, (j + 1) as nat);
                assert(cost@ =~= st1.0);
                assert(came@ =~= st1.1);
                assert(frontier@ =~= st1.3);
            }
            proof {
                assert(frontier@[frontier@.len() - 1] == (estimate, remaining, ni));
                assert forall|i: int|
                    0 <= i < n && reached(cost@, i) && !#[trigger] settled@[i] implies exists|jj: int|
                        0 <= jj < frontier@.len() && (#[trigger] frontier@[jj]).2 == i
                            && frontier@[jj].0 == cost@[i] + frontier@[jj].1 by {
                    if i == ni {
                        assert(frontier@[frontier@.len() - 1].2 == i);
                    } else {
                        let jj = choose|jj: int|
                            0 <= jj < f0.len() && (#[trigger] f0[jj]).2 == i && f0[jj].0 == c0[i]
                                + f0[jj].1;
                        assert(frontier@[jj] == f0[jj]);
                    }
                }
                assert forall|jj: int| 0 <= jj < frontier@.len() implies entry_ok(
                    g,
                    goal,
                    cost@,
                    #[trigger] frontier@[jj],
                ) by {
                    if jj < f0.len() {
                        assert(frontier@[jj] == f0[jj]);
                        assert(entry_ok(g, goal, c0, f0[jj]));
                    }
                }
                assert forall|i: int|
                    0 <= i < n && reached(cost@, i) && i != si implies {
                        &&& (#[trigger] came@[i]) < n
                        &&& settled@[came@[i] as int]
                        &&& reached(cost@, came@[i] as int)
                        &&& cost@[came@[i] as int] + 1 == cost@[i]
                        &&& adjacent(g.coord_of(came@[i] as int), g.coord_of(i))
                    } by {
                    if i != ni {
                        assert(came@[i] as int != ni);
                    }
                }
                assert forall|k: int|
                    0 <= k < j + 1 implies {
                        let c = g.index_of(#[trigger] around@[k]);
                        &&& reached(cost@, c)
                        &&& !settled@[c] ==> cost@[c] <= next_cost
                    } by {
                    if k < j {
                        assert(g.open_at(around@[k]));
                        g.lemma_index(around@[k].x as int, around@[k].y as int);
                    }
                }
                assert forall|i: int|
                    0 <= i < g.size() && #[trigger] reached(cost@, i) implies {
                        &&& g.open_at(g.coord_of(i))
                        &&& 0 <= cost@[i] <= expanded
                        &&& walk_of_length(g, start, g.coord_of(i), cost@[i] as int)
                    } by {
                    if i != ni {
                        assert(reached(c0, i));
                    }
                }
                assert forall|i: int, k: int|
                    0 <= i < g.size() && i != index && settled@[i] && 0 <= k < 4 && #[trigger] g.open_at(
                        neighbour(g.coord_of(i), k),
                    ) implies {
                        let jn = g.index_of(neighbour(g.coord_of(i), k));
                        &&& reached(cost@, jn)
                        &&& !settled@[jn] ==> cost@[jn] <= cost@[i] + 1
                    } by {
                    let jn = g.index_of(neighbour(g.coord_of(i), k));
                    assert(i != ni);
                    g.lemma_coord(i);
                    lemma_neighbour_adjacent(g, g.coord_of(i), k);
                    g.lemma_index(neighbour(g.coord_of(i), k).x as int, neighbour(g.coord_of(i), k).y as int);
                    assert(inv_relaxed(g, c0, settled@, index as int));
                    assert(reached(c0, jn));
                    assert(!settled@[jn] ==> c0[jn] <= c0[i] + 1);
                }
                assert(inv_reached(g, start, cost@, expanded as int));
                assert(inv_relaxed(g, cost@, settled@, index as int));
            }
            j = j + 1;
        }
        proof {
            assert(search_step(g, goal, now) == relax_upto(g, goal, mid, index as int, around@, around@.len()));
            rounds = rounds + 1;
        }
        proof {
            assert forall|i: int, k: int|
                0 <= i < n && i != -1 && settled@[i] && 0 <= k < 4 && #[trigger] g.open_at(
                    neighbour(g.coord_of(i), k),
                ) implies {
                    let jn = g.index_of(neighbour(g.coord_of(i), k));
                    &&& reached(cost@, jn)
                    &&& !settled@[jn] ==> cost@[jn] <= cost@[i] + 1
                } by {
                if i == index {
                    lemma_neighbour_adjacent(g, at, k);
                    let c = neighbour(at, k);
                    assert(around@.contains(c));
                    let kk = choose|kk: int| 0 <= kk < around@.len() && around@[kk] == c;
                    assert(around@[kk] == c);
                }
            }
        }
    }
    proof {
        assert forall|i: int| 0 <= i < n && reached(cost@, i) implies #[trigger] settled@[i] by {
            if !settled@[i] {
                let j = choose|j: int|
                    0 <= j < frontier@.len() && (#[trigger] frontier@[j]).2 == i && frontier@[j].0
                        == cost@[i] + frontier@[j].1;
            }
        }
        if reachable(g, start, goal) {
            assert(settled@[si as int]) by {
                if expanded == 0 {
                    assert(reached(cost@, si as int));
                }
            }
            assert forall|c: Coord, k: int|
                g.in_grid(c) && settled@[g.index_of(c)] && 0 <= k < 4 && #[trigger] g.open_at(
                    neighbour(c, k),
                ) implies settled@[g.index_of(neighbour(c, k))] by {
                g.lemma_index(c.x as int, c.y as int);
                assert(g.coord_of(g.index_of(c)) == c);
                lemma_neighbour_adjacent(g, c, k);
                let m = neighbour(c, k);
                g.lemma_index(m.x as int, m.y as int);
                assert(reached(cost@, g.index_of(m)));
            }
            let p = choose|p: Seq<Coord>| #[trigger] walk_between(g, p, start, goal);
            lemma_closed_contains_reachable(g, settled@, start, p);
        }
        lemma_route_found_at(g, start, goal, rounds);
    }
    None
}

/// A route is the same one every time it is asked for: any two results of
/// [`find_path`] on the same grid and ends are the same route, found at the
/// same cost.
pub proof fn lemma_route_is_determined(g: Grid, start: Coord, goal: Coord, a: Route, b: Route)
    requires
        route_found(g, start, goal) == Some((a.cells@, a.expanded as nat)),
        route_found(g, start, goal) == Some((b.cells@, b.expanded as nat)),
    ensures
        a.cells@ == b.cells@,
        a.expanded == b.expanded,
{
}

} // verus!
