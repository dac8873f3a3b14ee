//! The four kinds of drone, and the cell-level decisions each one makes.
//!
//! A drone's movement decision is *which cell do I head for next*. Wanderers
//! take any open neighbour, preferring not to double back; hunters take the
//! neighbour that gets nearest the player; assassins follow an A* route (see
//! [`crate::path`]). Everything here is a pure function of the grid.

use vstd::prelude::*;

use crate::grid::{Coord, Grid, adjacent};
use crate::path::Route;
use crate::walk::walk_between;

verus! {

/// How many drone kinds there are. The spawn table is indexed by this.
pub const KIND_COUNT: usize = 4;

/// The kinds of drone a factory can build, dumbest first.
#[derive(Clone, Copy, Debug, PartialEq, Eq, Hash, Structural)]
pub enum DroneKind {
    /// Wanders at random and fires on a timer.
    Drone,
    /// Wanders too, but quicker, and holds its fire until it has a shot.
    Torpedo,
    /// Drives straight at you, taking whichever opening leads that way.
    Hunter,
    /// Pathfinds. There is no corner it does not know the way around.
    Assassin,
}

/// How a drone decides which cell to head for next.
#[derive(Clone, Copy, Debug, PartialEq, Eq, Structural)]
pub enum Pursuit {
    /// Any open neighbour, preferring not to double back.
    Wander,
    /// Whichever open neighbour gets nearer the player, falling back to
    /// wandering where none of them does.
    Greedy,
    /// The first step of an A* route to the player.
    Path,
}

/// When a drone is allowed to pull the trigger.
#[derive(Clone, Copy, Debug, PartialEq, Eq, Structural)]
pub enum Trigger {
    /// Whenever the gun is loaded, wherever it happens to be pointing.
    Blind,
    /// Only with the player in range and in plain sight.
    OnSight,
}

/// The level at which factories start building `kind`.
pub open spec fn spec_unlock_level(kind: DroneKind) -> u32 {
    match kind {
        DroneKind::Drone => 1,
        DroneKind::Torpedo => 2,
        DroneKind::Hunter => 3,
        DroneKind::Assassin => 4,
    }
}

/// The kind at position `k` of the difficulty order.
pub open spec fn kind_in_order(k: int) -> DroneKind {
    if k == 0 {
        DroneKind::Drone
    } else if k == 1 {
        DroneKind::Torpedo
    } else if k == 2 {
        DroneKind::Hunter
    } else {
        DroneKind::Assassin
    }
}

/// Weight a kind reaches three levels after it is unlocked, and never passes.
pub const WEIGHT_CEILING: u32 = 3;

/// Relative likelihood of `kind` at `level`: none before it unlocks, then
/// ramping up by one per level to [`WEIGHT_CEILING`].
pub open spec fn spec_weight(kind: DroneKind, level: u32) -> u32 {
    let unlock = spec_unlock_level(kind);
    if level < unlock {
        0
    } else if level - unlock + 1 < WEIGHT_CEILING {
        (level - unlock + 1) as u32
    } else {
        WEIGHT_CEILING
    }
}

impl DroneKind {
    /// Every kind, in difficulty order.
    pub const ALL: [DroneKind; KIND_COUNT] = [
        DroneKind::Drone,
        DroneKind::Torpedo,
        DroneKind::Hunter,
        DroneKind::Assassin,
    ];

    /// The level at which factories start building this kind.
    pub fn unlock_level(self) -> (r: u32)
        ensures
            r == spec_unlock_level(self),
    {
        match self {
            DroneKind::Drone => 1,
            DroneKind::Torpedo => 2,
            DroneKind::Hunter => 3,
            DroneKind::Assassin => 4,
        }
    }

    /// How this kind chooses where to go.
    pub fn pursuit(self) -> (r: Pursuit)
        ensures
            r == (match self {
                DroneKind::Drone | DroneKind::Torpedo => Pursuit::Wander,
                DroneKind::Hunter => Pursuit::Greedy,
                DroneKind::Assassin => Pursuit::Path,
            }),
    {
        match self {
            DroneKind::Drone | DroneKind::Torpedo => Pursuit::Wander,
            DroneKind::Hunter => Pursuit::Greedy,
            DroneKind::Assassin => Pursuit::Path,
        }
    }

    /// How this kind chooses when to shoot.
    pub fn trigger(self) -> (r: Trigger)
        ensures
            r == (match self {
                DroneKind::Drone => Trigger::Blind,
                _ => Trigger::OnSight,
            }),
    {
        match self {
            DroneKind::Drone => Trigger::Blind,
            _ => Trigger::OnSight,
        }
    }

    /// Hit points. The tank's shell does twenty, so this is a shell count.
    pub fn health(self) -> (r: i32)
        ensures
            r == (match self {
                DroneKind::Drone | DroneKind::Torpedo => 20i32,
                DroneKind::Hunter | DroneKind::Assassin => 40i32,
            }),
    {
        match self {
            DroneKind::Drone | DroneKind::Torpedo => 20,
            DroneKind::Hunter | DroneKind::Assassin => 40,
        }
    }

    /// Hit points one of this kind's shells takes off what it hits.
    pub fn shell_damage(self) -> (r: i32)
        ensures
            r == (match self {
                DroneKind::Drone => 8i32,
                DroneKind::Torpedo | DroneKind::Hunter => 10i32,
                DroneKind::Assassin => 12i32,
            }),
    {
        match self {
            DroneKind::Drone => 8,
            DroneKind::Torpedo | DroneKind::Hunter => 10,
            DroneKind::Assassin => 12,
        }
    }
}

/// Relative likelihood of each kind at `level`, in [`DroneKind::ALL`] order.
///
/// A kind is unavailable until its level and then ramps in over the next
/// few, to a ceiling every kind eventually reaches: the mix converges on
/// uniform rather than on all-assassins.
pub fn spawn_weights(level: u32) -> (r: [u32; KIND_COUNT])
    ensures
        forall|k: int| 0 <= k < KIND_COUNT ==> #[trigger] r@[k] == spec_weight(kind_in_order(k), level),
{
    let mut r: [u32; KIND_COUNT] = [0, 0, 0, 0];
    let mut k: usize = 0;
    while k < KIND_COUNT
        invariant
            k <= KIND_COUNT,
            r@.len() == KIND_COUNT,
            forall|j: int| 0 <= j < k ==> #[trigger] r@[j] == spec_weight(kind_in_order(j), level),
        decreases KIND_COUNT - k,
    {
        let kind = if k == 0 {
            DroneKind::Drone
        } else if k == 1 {
            DroneKind::Torpedo
        } else if k == 2 {
            DroneKind::Hunter
        } else {
            DroneKind::Assassin
        };
        let unlock = kind.unlock_level();
        let weight = if level < unlock {
            0
        } else if level - unlock + 1 < WEIGHT_CEILING {
            level - unlock + 1
        } else {
            WEIGHT_CEILING
        };
        r[k] = weight;
        k = k + 1;
    }
    r
}

/// Sum of the spawn weights at `level`.
pub open spec fn total_weight(level: u32) -> int {
    spec_weight(DroneKind::Drone, level) + spec_weight(DroneKind::Torpedo, level) + spec_weight(
        DroneKind::Hunter,
        level,
    ) + spec_weight(DroneKind::Assassin, level)
}

/// A kind has no share of the spawn table before its level, and some share
/// from then on.
pub proof fn lemma_weight_unlocks(kind: DroneKind, level: u32)
    ensures
        spec_weight(kind, level) == 0 <==> level < spec_unlock_level(kind),
        spec_weight(kind, level) <= WEIGHT_CEILING,
{
}

/// The mix settles on every kind being equally likely, and stays there: from
/// three levels after the last unlock, every kind has the ceiling weight.
pub proof fn lemma_weights_settle(level: u32)
    requires
        level >= spec_unlock_level(DroneKind::Assassin) + WEIGHT_CEILING - 1,
    ensures
        forall|k: int| 0 <= k < KIND_COUNT ==> #[trigger] spec_weight(kind_in_order(k), level) == WEIGHT_CEILING,
{
}

/// The hardest kind's share of the table grows with each level until the
/// ceiling, and holds from then on.
#[verifier::spinoff_prover]
pub proof fn lemma_assassin_share_grows(level: u32)
    ensures
        spec_unlock_level(DroneKind::Assassin) <= level < spec_unlock_level(DroneKind::Assassin)
            + WEIGHT_CEILING - 1 ==> spec_weight(DroneKind::Assassin, (level + 1) as u32)
            * total_weight(level) > spec_weight(DroneKind::Assassin, level) * total_weight(
            (level + 1) as u32,
        ),
        level >= spec_unlock_level(DroneKind::Assassin) + WEIGHT_CEILING - 1 && level < u32::MAX
            ==> spec_weight(DroneKind::Assassin, (level + 1) as u32) * total_weight(level)
            == spec_weight(DroneKind::Assassin, level) * total_weight((level + 1) as u32),
{
    let next = (level + 1) as u32;
    if level == 4 {
        assert(next == 5u32);
        assert(total_weight(4) == 9 && total_weight(5) == 11);
        assert(spec_weight(DroneKind::Assassin, next) * total_weight(level) == 2 * 9);
        assert(spec_weight(DroneKind::Assassin, level) * total_weight(next) == 1 * 11);
    } else if level == 5 {
        assert(next == 6u32);
        assert(total_weight(5) == 11 && total_weight(6) == 12);
        assert(spec_weight(DroneKind::Assassin, next) * total_weight(level) == 3 * 11);
        assert(spec_weight(DroneKind::Assassin, level) * total_weight(next) == 2 * 12);
    } else if level >= 6 && level < u32::MAX {
        assert(total_weight(level) == 12 && total_weight(next) == 12);
    }
}

/// `s` with every occurrence of `x` taken out, order kept.
pub open spec fn without(s: Seq<Coord>, x: Coord) -> Seq<Coord>
    decreases s.len(),
{
    if s.len() == 0 {
        s
    } else if s.last() == x {
        without(s.drop_last(), x)
    } else {
        without(s.drop_last(), x).push(s.last())
    }
}

/// The cells a wandering drone at `at` chooses between: its open neighbours
/// other than the one it came from, or, in a dead end, all of them.
pub open spec fn spec_wander_options(g: Grid, at: Coord, came_from: Option<Coord>) -> Seq<Coord> {
    let all = g.open_neighbour_seq(at);
    let onward = match came_from {
        Some(back) => without(all, back),
        None => all,
    };
    if onward.len() > 0 {
        onward
    } else {
        all
    }
}

/// Every entry of `without(s, x)` is an entry of `s` other than `x`.
pub proof fn lemma_without(s: Seq<Coord>, x: Coord)
    ensures
        without(s, x).len() <= s.len(),
        forall|c: Coord| #[trigger] without(s, x).contains(c) ==> s.contains(c) && c != x,
        forall|c: Coord| #[trigger] s.contains(c) && c != x ==> without(s, x).contains(c),
    decreases s.len(),
{
    if s.len() > 0 {
        lemma_without(s.drop_last(), x);
        assert forall|c: Coord| #[trigger] s.contains(c) && c != x implies without(s, x).contains(c) by {
            let i = choose|i: int| 0 <= i < s.len() && s[i] == c;
            let w = without(s.drop_last(), x);
            if i < s.len() - 1 {
                assert(s.drop_last()[i] == c);
                assert(s.drop_last().contains(c));
                let k = choose|k: int| 0 <= k < w.len() && w[k] == c;
                if s.last() != x {
                    assert(without(s, x)[k] == c);
                }
            } else {
                assert(without(s, x) == w.push(c));
                assert(without(s, x)[w.len() as int] == c);
            }
        }
        assert forall|c: Coord| #[trigger] without(s, x).contains(c) implies s.contains(c) && c != x by {
            let w = without(s.drop_last(), x);
            if without(s, x) != w {
                assert(without(s, x) == w.push(s.last()));
                let j = choose|j: int| 0 <= j < without(s, x).len() && without(s, x)[j] == c;
                if j < w.len() {
                    assert(w[j] == c);
                    assert(w.contains(c));
                    let i = choose|i: int| 0 <= i < s.drop_last().len() && s.drop_last()[i] == c;
                    assert(s[i] == c);
                } else {
                    assert(s[s.len() - 1] == c);
                }
            } else {
                assert(w.contains(c));
                let i = choose|i: int| 0 <= i < s.drop_last().len() && s.drop_last()[i] == c;
                assert(s[i] == c);
            }
        }
    }
}

/// Which of the four orthogonal steps `+X`, `-X`, `+Y`, `-Y` leads from `at`
/// to its neighbour `c`, as a position in that fixed order.
pub open spec fn step_of(at: Coord, c: Coord) -> int {
    if c.x == at.x + 1 && c.y == at.y {
        0
    } else if c.x == at.x - 1 && c.y == at.y {
        1
    } else if c.x == at.x && c.y == at.y + 1 {
        2
    } else {
        3
    }
}

/// The open neighbours of `cell` come in the fixed order of their steps.
proof fn lemma_neighbours_in_order(g: Grid, cell: Coord, k: int)
    requires
        g.wf(),
        0 <= k <= 4,
    ensures
        forall|j: int|
            0 <= j < g.open_neighbours_upto(cell, k).len() ==> #[trigger] step_of(
                cell,
                g.open_neighbours_upto(cell, k)[j],
            ) < k,
        forall|i: int, j: int|
            0 <= i < j < g.open_neighbours_upto(cell, k).len() ==> #[trigger] step_of(
                cell,
                g.open_neighbours_upto(cell, k)[i],
            ) < #[trigger] step_of(cell, g.open_neighbours_upto(cell, k)[j]),
    decreases k,
{
    if k > 0 {
        lemma_neighbours_in_order(g, cell, k - 1);
        let rest = g.open_neighbours_upto(cell, k - 1);
        let all = g.open_neighbours_upto(cell, k);
        let (x, y) = (cell.x + crate::grid::step_dx(k - 1), cell.y + crate::grid::step_dy(k - 1));
        let (w, h) = (g.spec_width(), g.spec_height());
        assert(w <= i32::MAX && h <= i32::MAX) by (nonlinear_arith)
            requires
                0 < w,
                0 < h,
                w * h <= i32::MAX,
        ;
        if g.open_xy(x, y) {
            let c = Coord { x: x as i32, y: y as i32 };
            assert(c.x == x && c.y == y);
            assert(step_of(cell, c) == k - 1);
            assert(all == rest.push(c));
            assert forall|j: int| 0 <= j < all.len() implies #[trigger] step_of(cell, all[j]) < k by {
                if j < rest.len() {
                    assert(all[j] == rest[j]);
                }
            }
            assert forall|i: int, j: int| 0 <= i < j < all.len() implies #[trigger] step_of(cell, all[i])
                < #[trigger] step_of(cell, all[j]) by {
                assert(all[i] == rest[i]);
                if j < rest.len() {
                    assert(all[j] == rest[j]);
                } else {
                    assert(step_of(cell, rest[i]) < k - 1);
                }
            }
        }
    }
}

/// Taking entries out of a list in step order leaves it in step order.
proof fn lemma_without_in_order(s: Seq<Coord>, x: Coord, at: Coord)
    requires
        forall|i: int, j: int| 0 <= i < j < s.len() ==> #[trigger] step_of(at, s[i]) < #[trigger] step_of(at, s[j]),
    ensures
        forall|i: int, j: int|
            0 <= i < j < without(s, x).len() ==> #[trigger] step_of(at, without(s, x)[i]) < #[trigger] step_of(
                at,
                without(s, x)[j],
            ),
    decreases s.len(),
{
    if s.len() > 0 {
        let p = s.drop_last();
        assert forall|i: int, j: int| 0 <= i < j < p.len() implies #[trigger] step_of(at, p[i]) < #[trigger] step_of(
            at,
            p[j],
        ) by {
            assert(p[i] == s[i] && p[j] == s[j]);
        }
        lemma_without_in_order(p, x, at);
        lemma_without(p, x);
        if s.last() != x {
            let w = without(p, x);
            let r = without(s, x);
            assert(r == w.push(s.last()));
            assert forall|i: int, j: int| 0 <= i < j < r.len() implies #[trigger] step_of(at, r[i]) < #[trigger] step_of(
                at,
                r[j],
            ) by {
                if j == r.len() - 1 {
                    assert(w.contains(r[i]));
                    assert(p.contains(r[i]));
                    let k = choose|k: int| 0 <= k < p.len() && p[k] == r[i];
                    assert(s[k] == r[i]);
                    assert(s[s.len() - 1] == r[j]);
                } else {
                    assert(r[i] == w[i] && r[j] == w[j]);
                }
            }
        }
    }
}

/// `at` has an open neighbour other than `back`: somewhere to go on to.
pub open spec fn another_way(g: Grid, at: Coord, back: Coord) -> bool {
    exists|n: Coord| adjacent(at, n) && #[trigger] g.open_at(n) && n != back
}

/// A wanderer at `at` that came from `came_from` has somewhere to go other
/// than back.
pub open spec fn turns_away(g: Grid, at: Coord, came_from: Option<Coord>) -> bool {
    match came_from {
        Some(back) => another_way(g, at, back),
        None => false,
    }
}

/// The open neighbours a wandering drone at `at` picks among: any but the one
/// it came from, so that it explores rather than jitters in a corridor, or,
/// in a dead end, the way back.
///
/// Empty only if the drone is somewhere with no open neighbour at all.
pub fn wander_options(grid: &Grid, at: Coord, came_from: Option<Coord>) -> (r: Vec<Coord>)
    requires
        grid.wf(),
    ensures
        r@ == spec_wander_options(*grid, at, came_from),
        forall|j: int| 0 <= j < r@.len() ==> grid.open_at(#[trigger] r@[j]) && adjacent(at, r@[j]),
        r@.len() == 0 <==> grid.open_neighbour_seq(at).len() == 0,
        came_from matches Some(back) ==> (another_way(*grid, at, back) ==> {
            &&& !r@.contains(back)
            &&& forall|n: Coord| adjacent(at, n) && #[trigger] grid.open_at(n) && n != back ==> r@.contains(n)
        }),
        !turns_away(*grid, at, came_from) ==> forall|n: Coord|
            adjacent(at, n) && #[trigger] grid.open_at(n) ==> r@.contains(n),
        forall|i: int, j: int|
            0 <= i < j < r@.len() ==> #[trigger] step_of(at, r@[i]) < #[trigger] step_of(at, r@[j]),
{
    proof {
        lemma_neighbours_in_order(*grid, at, 4);
    }
    let all = grid.open_neighbours(at);
    match came_from {
        None => {
            proof {
                assert forall|n: Coord| adjacent(at, n) && #[trigger] grid.open_at(n) implies all@.contains(n) by {}
            }
            all
        },
        Some(back) => {
            let mut onward: Vec<Coord> = Vec::new();
            let mut i: usize = 0;
            while i < all.len()
                invariant
                    i <= all@.len(),
                    onward@ == without(all@.subrange(0, i as int), back),
                decreases all@.len() - i,
            {
                proof {
                    assert(all@.subrange(0, i + 1).drop_last() =~= all@.subrange(0, i as int));
                    assert(all@.subrange(0, i + 1).last() == all@[i as int]);
                }
                if all[i] != back {
                    onward.push(all[i]);
                }
                i = i + 1;
            }
            proof {
                assert(all@.subrange(0, all@.len() as int) =~= all@);
                lemma_without(all@, back);
                assert forall|j: int| 0 <= j < onward@.len() implies grid.open_at(
                    #[trigger] onward@[j],
                ) && adjacent(at, onward@[j]) by {
                    assert(without(all@, back).contains(onward@[j]));
                    let k = choose|k: int| 0 <= k < all@.len() && all@[k] == onward@[j];
                }
            }
            proof {
                if exists|n: Coord| adjacent(at, n) && #[trigger] grid.open_at(n) && n != back {
                    let n = choose|n: Coord| adjacent(at, n) && #[trigger] grid.open_at(n) && n != back;
                    assert(all@.contains(n));
                    assert(onward@.contains(n));
                }
                lemma_without_in_order(all@, back, at);
                if onward@.len() > 0 {
                    let c = onward@[0];
                    assert(without(all@, back).contains(c));
                    let k = choose|k: int| 0 <= k < all@.len() && all@[k] == c;
                    assert(grid.open_at(all@[k]) && adjacent(at, all@[k]));
                    assert(another_way(*grid, at, back));
                }
                assert forall|n: Coord| adjacent(at, n) && #[trigger] grid.open_at(n) implies all@.contains(n) by {}
            }
            if onward.len() > 0 {
                onward
            } else {
                all
            }
        },
    }
}

/// Squared distance between two cells.
pub open spec fn distance_squared(a: Coord, b: Coord) -> int {
    (a.x - b.x) * (a.x - b.x) + (a.y - b.y) * (a.y - b.y)
}

/// Among `s`, the first entry that is strictly nearer `toward` than `here`
/// is, and nearest of all such.
pub open spec fn nearest_improvement(s: Seq<Coord>, toward: Coord, here: int) -> Option<Coord>
    decreases s.len(),
{
    if s.len() == 0 {
        None
    } else {
        let best = nearest_improvement(s.drop_last(), toward, here);
        let c = s.last();
        let d = distance_squared(c, toward);
        if d < here && (best is None || d < distance_squared(best->0, toward)) {
            Some(c)
        } else {
            best
        }
    }
}

/// What [`nearest_improvement`] picks: an entry strictly nearer `toward` than
/// `here`, and no farther than any other such entry; and nothing exactly when
/// no entry is strictly nearer.
pub proof fn lemma_nearest_improvement(s: Seq<Coord>, toward: Coord, here: int)
    ensures
        match nearest_improvement(s, toward, here) {
            Some(c) => {
                &&& s.contains(c)
                &&& distance_squared(c, toward) < here
                &&& forall|j: int|
                    0 <= j < s.len() ==> distance_squared(c, toward) <= #[trigger] distance_squared(s[j], toward)
                        || distance_squared(s[j], toward) >= here
                &&& exists|i: int|
                    0 <= i < s.len() && s[i] == c && forall|j: int|
                        0 <= j < i ==> #[trigger] distance_squared(s[j], toward) >= here || distance_squared(
                            s[j],
                            toward,
                        ) > distance_squared(c, toward)
            },
            None => forall|j: int| 0 <= j < s.len() ==> #[trigger] distance_squared(s[j], toward) >= here,
        },
    decreases s.len(),
{
    if s.len() > 0 {
        let p = s.drop_last();
        lemma_nearest_improvement(p, toward, here);
        assert forall|j: int| 0 <= j < s.len() - 1 implies #[trigger] s[j] == p[j] by {}
        let r = nearest_improvement(s, toward, here);
        if r is Some {
            let c = r->0;
            let best = nearest_improvement(p, toward, here);
            if best == Some(c) {
                let k = choose|k: int| 0 <= k < p.len() && p[k] == c;
                assert(s[k] == c);
                let i = choose|i: int|
                    0 <= i < p.len() && p[i] == c && forall|j: int|
                        0 <= j < i ==> #[trigger] distance_squared(p[j], toward) >= here || distance_squared(
                            p[j],
                            toward,
                        ) > distance_squared(c, toward);
                assert(s[i] == c);
                assert forall|j: int| 0 <= j < i implies #[trigger] distance_squared(s[j], toward) >= here
                    || distance_squared(s[j], toward) > distance_squared(c, toward) by {
                    assert(s[j] == p[j]);
                }
            } else {
                assert(c == s.last());
                assert(s[s.len() - 1] == c);
                assert forall|j: int| 0 <= j < s.len() - 1 implies #[trigger] distance_squared(s[j], toward) >= here
                    || distance_squared(s[j], toward) > distance_squared(c, toward) by {
                    assert(s[j] == p[j]);
                    if best is None {
                        assert(distance_squared(p[j], toward) >= here);
                    } else {
                        assert(distance_squared(best->0, toward) <= distance_squared(p[j], toward)
                            || distance_squared(p[j], toward) >= here);
                    }
                }
            }
            assert forall|j: int| 0 <= j < s.len() implies distance_squared(c, toward) <= #[trigger] distance_squared(
                s[j],
                toward,
            ) || distance_squared(s[j], toward) >= here by {
                if j < s.len() - 1 {
                    assert(s[j] == p[j]);
                    assert(distance_squared(c, toward) <= distance_squared(p[j], toward) || distance_squared(p[j], toward) >= here);
                }
            }
        } else {
            assert forall|j: int| 0 <= j < s.len() implies #[trigger] distance_squared(s[j], toward) >= here by {
                if j < s.len() - 1 {
                    assert(s[j] == p[j]);
                    assert(distance_squared(p[j], toward) >= here);
                }
            }
        }
    }
}

/// Squared distance between two cells, without overflow.
fn distance_squared_of(a: Coord, b: Coord) -> (r: i128)
    ensures
        r == distance_squared(a, b),
{
    let dx = a.x as i128 - b.x as i128;
    let dy = a.y as i128 - b.y as i128;
    assert(0 <= dx * dx <= 0x1_0000_0000_0000_0000) by (nonlinear_arith)
        requires
            -0x1_0000_0000 <= dx <= 0x1_0000_0000,
    ;
    assert(0 <= dy * dy <= 0x1_0000_0000_0000_0000) by (nonlinear_arith)
        requires
            -0x1_0000_0000 <= dy <= 0x1_0000_0000,
    ;
    dx * dx + dy * dy
}

/// The open neighbour that gets a hunter at `at` nearest `toward`, or `None`
/// where no neighbour is an improvement (a hunter then wanders instead).
///
/// Greed is the whole design: it takes the opening that points at you and
/// has no memory, so it falls for any wall it has to go the wrong way round.
/// Ties go to the first in the fixed neighbour order `+X`, `-X`, `+Y`, `-Y`.
pub fn greedy_choice(grid: &Grid, at: Coord, toward: Coord) -> (r: Option<Coord>)
    requires
        grid.wf(),
    ensures
        r == nearest_improvement(grid.open_neighbour_seq(at), toward, distance_squared(at, toward)),
        r matches Some(c) ==> grid.open_at(c) && adjacent(at, c) && distance_squared(c, toward)
            < distance_squared(at, toward),
        r matches Some(c) ==> forall|n: Coord|
            adjacent(at, n) && #[trigger] grid.open_at(n) ==> distance_squared(c, toward) <= distance_squared(
                n,
                toward,
            ),
        r is None <==> forall|n: Coord|
            adjacent(at, n) && #[trigger] grid.open_at(n) ==> distance_squared(n, toward) >= distance_squared(
                at,
                toward,
            ),
        r matches Some(c) ==> exists|i: int|
            0 <= i < grid.open_neighbour_seq(at).len() && grid.open_neighbour_seq(at)[i] == c && forall|j: int|
                0 <= j < i ==> #[trigger] distance_squared(grid.open_neighbour_seq(at)[j], toward)
                    >= distance_squared(at, toward) || distance_squared(grid.open_neighbour_seq(at)[j], toward)
                    > distance_squared(c, toward),
{
    let here = distance_squared_of(at, toward);
    let around = grid.open_neighbours(at);
    let mut best: Option<Coord> = None;
    let mut best_distance: i128 = 0;
    let mut i: usize = 0;
    while i < around.len()
        invariant
            i <= around@.len(),
            here == distance_squared(at, toward),
            best == nearest_improvement(around@.subrange(0, i as int), toward, here as int),
            best matches Some(c) ==> best_distance == distance_squared(c, toward) && around@.contains(c)
                && distance_squared(c, toward) < here,
            forall|j: int|
                0 <= j < around@.len() ==> grid.open_at(#[trigger] around@[j]) && adjacent(at, around@[j]),
        decreases around@.len() - i,
    {
        proof {
            assert(around@.subrange(0, i + 1).drop_last() =~= around@.subrange(0, i as int));
            assert(around@.subrange(0, i + 1).last() == around@[i as int]);
        }
        let c = around[i];
        let d = distance_squared_of(c, toward);
        if d < here && (best.is_none() || d < best_distance) {
            best = Some(c);
            best_distance = d;
        }
        i = i + 1;
    }
    proof {
        assert(around@.subrange(0, around@.len() as int) =~= around@);
        lemma_nearest_improvement(around@, toward, here as int);
        if best is Some {
            let c = best->0;
            let j = choose|j: int| 0 <= j < around@.len() && around@[j] == c;
            assert(grid.open_at(around@[j]));
            assert forall|n: Coord| adjacent(at, n) && #[trigger] grid.open_at(n) implies distance_squared(c, toward)
                <= distance_squared(n, toward) by {
                let k = choose|k: int| 0 <= k < around@.len() && around@[k] == n;
                assert(distance_squared(c, toward) <= distance_squared(around@[k], toward) || distance_squared(
                    around@[k],
                    toward,
                ) >= here);
            }
        } else {
            assert forall|n: Coord| adjacent(at, n) && #[trigger] grid.open_at(n) implies distance_squared(n, toward)
                >= distance_squared(at, toward) by {
                let k = choose|k: int| 0 <= k < around@.len() && around@[k] == n;
                assert(distance_squared(around@[k], toward) >= here);
            }
        }
    }
    best
}

/// True if a drone standing in `cell` must re-anchor on it rather than keep
/// driving at `waypoint`: the waypoint is a wall, or it is more than one cell
/// away on either axis (the drone was shoved off its route).
pub fn needs_reanchor(grid: &Grid, cell: Coord, waypoint: Coord) -> (r: bool)
    requires
        grid.wf(),
    ensures
        r == (!grid.open_at(waypoint) || cell.x - waypoint.x > 1 || waypoint.x - cell.x > 1
            || cell.y - waypoint.y > 1 || waypoint.y - cell.y > 1),
{
    let dx = cell.x as i64 - waypoint.x as i64;
    let dy = cell.y as i64 - waypoint.y as i64;
    grid.is_wall(waypoint) || dx > 1 || dx < -1 || dy > 1 || dy < -1
}

/// What taking the next step of plan `route` from `from` leaves and gives:
/// cells are dropped off the end until one is a single step from `from`,
/// which is taken too.
pub open spec fn spec_next_planned(route: Seq<Coord>, from: Coord) -> (Seq<Coord>, Option<Coord>)
    decreases route.len(),
{
    if route.len() == 0 {
        (route, None)
    } else if adjacent(from, route.last()) {
        (route.drop_last(), Some(route.last()))
    } else {
        spec_next_planned(route.drop_last(), from)
    }
}

/// The next cell of a planned route (stored nearest last) that is actually
/// one step from `from`.
///
/// A route is recomputed on a timer, so the one held can have been worked
/// out from a cell the drone has since left. Cells that are no longer a
/// single step away are dropped rather than driven at.
pub fn next_planned(route: &mut Vec<Coord>, from: Coord) -> (r: Option<Coord>)
    ensures
        (final(route)@, r) == spec_next_planned(old(route)@, from),
        final(route)@.len() <= old(route)@.len(),
        final(route)@ == old(route)@.subrange(0, final(route)@.len() as int),
        forall|j: int|
            final(route)@.len() < j < old(route)@.len() ==> !adjacent(from, #[trigger] old(route)@[j]),
        match r {
            Some(c) => final(route)@.len() < old(route)@.len() && c == old(route)@[final(route)@.len() as int]
                && adjacent(from, c),
            None => final(route)@.len() == 0 && forall|j: int|
                0 <= j < old(route)@.len() ==> !adjacent(from, #[trigger] old(route)@[j]),
        },
{
    let ghost given = route@;
    while route.len() > 0
        invariant
            given == old(route)@,
            route@.len() <= given.len(),
            route@ == given.subrange(0, route@.len() as int),
            spec_next_planned(given, from) == spec_next_planned(route@, from),
            forall|j: int| route@.len() <= j < given.len() ==> !adjacent(from, #[trigger] given[j]),
        decreases route@.len(),
    {
        let ghost whole = route@;
        let next = route.pop().unwrap();
        let dx = next.x as i64 - from.x as i64;
        let dy = next.y as i64 - from.y as i64;
        let step = (dx == 1 && dy == 0) || (dx == -1 && dy == 0) || (dx == 0 && dy == 1) || (dx == 0
            && dy == -1);
        proof {
            if step {
                let k = if dx == 1 {
                    0int
                } else if dx == -1 {
                    1int
                } else if dy == 1 {
                    2int
                } else {
                    3int
                };
                assert(crate::grid::step_dx(k) == next.x - from.x && crate::grid::step_dy(k) == next.y
                    - from.y);
            } else {
                assert(!adjacent(from, next));
            }
        }
        proof {
            assert(whole.drop_last() =~= route@);
            assert(whole.last() == next);
        }
        if step {
            return Some(next);
        }
    }
    None
}

/// A route laid out as a plan: its cells after the start, nearest last, so
/// that walking the plan is a `pop`.
pub open spec fn plan_seq(cells: Seq<Coord>) -> Seq<Coord> {
    if cells.len() == 0 {
        Seq::empty()
    } else {
        Seq::new((cells.len() - 1) as nat, |j: int| cells[cells.len() - 1 - j])
    }
}

/// Lays `route` out as a plan: every cell after the one the drone stands on,
/// reversed so that the next step is the last element.
pub fn plan_of(route: &Route) -> (r: Vec<Coord>)
    ensures
        r@ == plan_seq(route.cells@),
{
    let cells = &route.cells;
    let mut plan: Vec<Coord> = Vec::new();
    let mut i: usize = cells.len();
    while i > 1
        invariant
            i <= cells@.len(),
            cells@.len() > 0 ==> i >= 1,
            cells@.len() == 0 ==> i == 0,
            plan@.len() == cells@.len() - i,
            forall|j: int| 0 <= j < plan@.len() ==> #[trigger] plan@[j] == cells@[cells@.len() - 1 - j],
        decreases i,
    {
        plan.push(cells[i - 1]);
        i = i - 1;
    }
    proof {
        assert(plan@ =~= plan_seq(cells@));
    }
    plan
}

/// Walking a plan walks its route: for a walk from the drone's cell, after
/// `k - 1` steps have been popped the plan's last cell is the route's `k`th,
/// one step from the cell the drone has reached.
pub proof fn lemma_plan_walks_route(g: Grid, cells: Seq<Coord>, start: Coord, goal: Coord, k: int)
    requires
        walk_between(g, cells, start, goal),
        1 <= k < cells.len(),
    ensures
        plan_seq(cells).subrange(0, cells.len() - k).last() == cells[k],
        adjacent(cells[k - 1], cells[k]),
        g.open_at(cells[k]),
{
    assert(adjacent(cells[k - 1], cells[(k - 1) + 1]));
}

/// The cell a drone is heading for, and the one it left to head there.
#[derive(Clone, Copy, Debug, PartialEq, Eq, Structural)]
pub struct Waypoint {
    /// The cell being driven at.
    pub cell: Coord,
    /// The cell it was chosen from, which a wanderer avoids doubling back to.
    pub previous: Option<Coord>,
}

/// The waypoint a drone standing in `cell` keeps: its own cell, with no
/// history, when it has been shoved off its route (see [`needs_reanchor`]),
/// and `waypoint` unchanged otherwise.
pub fn reanchored(grid: &Grid, waypoint: Waypoint, cell: Coord) -> (r: Waypoint)
    requires
        grid.wf(),
    ensures
        r == (if !grid.open_at(waypoint.cell) || cell.x - waypoint.cell.x > 1 || waypoint.cell.x - cell.x
            > 1 || cell.y - waypoint.cell.y > 1 || waypoint.cell.y - cell.y > 1 {
            Waypoint { cell, previous: None }
        } else {
            waypoint
        }),
{
    if needs_reanchor(grid, cell, waypoint.cell) {
        Waypoint { cell, previous: None }
    } else {
        waypoint
    }
}

/// The waypoint after an arrived drone has chosen where to go next: the
/// chosen cell, remembering the one it leaves; unchanged when there was
/// nowhere to go.
pub fn advanced(waypoint: Waypoint, chosen: Option<Coord>) -> (r: Waypoint)
    ensures
        r == (match chosen {
            Some(next) => Waypoint { cell: next, previous: Some(waypoint.cell) },
            None => waypoint,
        }),
{
    match chosen {
        Some(next) => Waypoint { cell: next, previous: Some(waypoint.cell) },
        None => waypoint,
    }
}

/// The neighbour that gets a hunter at `from` nearer `quarry`, if there is a
/// quarry and such a neighbour.
pub open spec fn spec_closing_in(g: Grid, from: Coord, quarry: Option<Coord>) -> Option<Coord> {
    match quarry {
        Some(q) => nearest_improvement(g.open_neighbour_seq(from), q, distance_squared(from, q)),
        None => None,
    }
}

/// The cell a drone of `pursuit` at `from` heads for without a roll, if any:
/// an assassin's next planned step, or else, for an assassin or a hunter, the
/// neighbour that closes on the quarry.
pub open spec fn spec_pursue(
    g: Grid,
    pursuit: Pursuit,
    plan: Seq<Coord>,
    from: Coord,
    quarry: Option<Coord>,
) -> Option<Coord> {
    match pursuit {
        Pursuit::Wander => None,
        Pursuit::Greedy => spec_closing_in(g, from, quarry),
        Pursuit::Path => match spec_next_planned(plan, from).1 {
            Some(c) => Some(c),
            None => spec_closing_in(g, from, quarry),
        },
    }
}

/// `choice` is what greed makes of the open neighbours of `from` with
/// `quarry` to close on: a neighbour strictly nearer the quarry and no
/// farther than any other, or nothing exactly when no neighbour is nearer.
pub open spec fn closes_in(g: Grid, from: Coord, quarry: Coord, choice: Option<Coord>) -> bool {
    &&& (choice matches Some(c) ==> {
        &&& g.open_at(c)
        &&& adjacent(from, c)
        &&& distance_squared(c, quarry) < distance_squared(from, quarry)
        &&& forall|n: Coord|
            adjacent(from, n) && #[trigger] g.open_at(n) ==> distance_squared(c, quarry) <= distance_squared(
                n,
                quarry,
            )
    })
    &&& (choice is None <==> forall|n: Coord|
        adjacent(from, n) && #[trigger] g.open_at(n) ==> distance_squared(n, quarry) >= distance_squared(
            from,
            quarry,
        ))
}

/// Where a drone of `pursuit` standing at `from` goes next, as far as that is
/// decided without a roll: a cell to head for, or else the cells a roll
/// picks among (none where there is nowhere to go).
///
/// An assassin takes the next step of its plan and falls back on greed once
/// the plan is spent; a hunter closes on `quarry` where a neighbour gets
/// nearer and wanders otherwise, as it does with no quarry; a wanderer
/// always wanders.
pub fn pursue(
    grid: &Grid,
    pursuit: Pursuit,
    plan: &mut Vec<Coord>,
    from: Coord,
    quarry: Option<Coord>,
    came_from: Option<Coord>,
) -> (r: (Option<Coord>, Vec<Coord>))
    requires
        grid.wf(),
    ensures
        pursuit == Pursuit::Path ==> final(plan)@ == spec_next_planned(old(plan)@, from).0,
        pursuit != Pursuit::Path ==> final(plan)@ == old(plan)@,
        r.0 == spec_pursue(*grid, pursuit, old(plan)@, from, quarry),
        r.1@ == (if r.0 is Some {
            Seq::<Coord>::empty()
        } else {
            spec_wander_options(*grid, from, came_from)
        }),
        pursuit == Pursuit::Wander ==> r.0 is None,
        pursuit == Pursuit::Greedy ==> match quarry {
            Some(q) => closes_in(*grid, from, q, r.0),
            None => r.0 is None,
        },
        pursuit == Pursuit::Path && (exists|j: int|
            0 <= j < old(plan)@.len() && #[trigger] adjacent(from, old(plan)@[j])) ==> {
            &&& final(plan)@.len() < old(plan)@.len()
            &&& r.0 == Some(old(plan)@[final(plan)@.len() as int])
            &&& adjacent(from, old(plan)@[final(plan)@.len() as int])
            &&& final(plan)@ == old(plan)@.subrange(0, final(plan)@.len() as int)
            &&& forall|j: int|
                final(plan)@.len() < j < old(plan)@.len() ==> !adjacent(from, #[trigger] old(plan)@[j])
        },
        pursuit == Pursuit::Path && !(exists|j: int|
            0 <= j < old(plan)@.len() && #[trigger] adjacent(from, old(plan)@[j])) ==> {
            &&& final(plan)@.len() == 0
            &&& match quarry {
                Some(q) => closes_in(*grid, from, q, r.0),
                None => r.0 is None,
            }
        },
{
    let planned = match pursuit {
        Pursuit::Path => next_planned(plan, from),
        _ => None,
    };
    let chosen = match planned {
        Some(c) => Some(c),
        None => match pursuit {
            Pursuit::Wander => None,
            _ => match quarry {
                Some(q) => greedy_choice(grid, from, q),
                None => None,
            },
        },
    };
    match chosen {
        Some(c) => (Some(c), Vec::new()),
        None => (None, wander_options(grid, from, came_from)),
    }
}

} // verus!
