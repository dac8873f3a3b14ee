use dinochrome::drone::{
    DroneKind, KIND_COUNT, Pursuit, Trigger, greedy_choice, needs_reanchor, next_planned,
    plan_of, pursue, spawn_weights, wander_options, Waypoint, advanced, reanchored,
};
use dinochrome::grid::{Coord, Grid};
use dinochrome::maze::{Maze, generate, normalized_span};
use dinochrome::path::find_path;

/// Rolls spread across the unit interval, including both ends.
const ROLLS: [f32; 5] = [0.0, 0.25, 0.5, 0.75, 0.999];

fn c(x: i32, y: i32) -> Coord {
    Coord::new(x, y)
}

/// Picks one of `options` using a roll in `0.0..1.0`, as the front end does.
fn pick(options: &[Coord], roll: f32) -> Option<Coord> {
    if options.is_empty() {
        return None;
    }
    let index = (roll.clamp(0.0, 1.0) * options.len() as f32) as usize;
    options.get(index.min(options.len() - 1)).copied()
}

fn wander_step(grid: &Grid, at: Coord, came_from: Option<Coord>, roll: f32) -> Option<Coord> {
    pick(&wander_options(grid, at, came_from), roll)
}

fn greedy_step(
    grid: &Grid,
    at: Coord,
    toward: Coord,
    came_from: Option<Coord>,
    roll: f32,
) -> Option<Coord> {
    greedy_choice(grid, at, toward).or_else(|| wander_step(grid, at, came_from, roll))
}

fn length_squared(a: Coord, b: Coord) -> i32 {
    (a.x - b.x) * (a.x - b.x) + (a.y - b.y) * (a.y - b.y)
}

fn is_orthogonal_step(from: Coord, to: Coord) -> bool {
    (from.x - to.x).abs() + (from.y - to.y).abs() == 1
}

fn level_one(seed: u64) -> Maze {
    let (w, h) = (normalized_span(33), normalized_span(25));
    let target = (0.34f32 * ((w - 2) * (h - 2)) as f32).round() as i32;
    generate(33, 25, target, seed)
}

/// A blind vertical pocket, open only at the bottom, with open floor above it.
fn pocket() -> Grid {
    Grid::from_rows(&[".....", ".....", ".###.", ".#.#.", ".#.#.", "....."])
}

#[test]
fn level_one_builds_nothing_but_the_dumbest_kind() {
    assert_eq!(spawn_weights(1), [1, 0, 0, 0]);
}

#[test]
fn the_mix_settles_on_every_kind_being_equally_likely() {
    let settled = spawn_weights(7);
    assert_eq!(settled, [3, 3, 3, 3]);
    assert_eq!(spawn_weights(40), settled, "the ceiling holds");
}

#[test]
fn the_hardest_kind_gets_commoner_as_the_levels_go_on() {
    let share = |level: u32| {
        let weights = spawn_weights(level);
        weights[KIND_COUNT - 1] as f32 / weights.iter().sum::<u32>() as f32
    };
    for level in 4..6u32 {
        assert!(
            share(level + 1) > share(level),
            "assassins are no commoner at level {} than at {level}",
            level + 1
        );
    }
    assert_eq!(share(6), share(9));
}

#[test]
fn a_wanderer_only_ever_steps_onto_open_ground_next_door() {
    let maze = level_one(41);
    for cell in maze.grid.open() {
        for roll in ROLLS {
            let next = wander_step(&maze.grid, cell, None, roll).expect("a way out");
            assert!(is_orthogonal_step(cell, next), "{cell:?} to {next:?}");
            assert!(maze.grid.is_open(next), "stepped into {next:?}");
        }
    }
}

#[test]
fn a_wanderer_in_a_corridor_keeps_going_rather_than_doubling_back() {
    let grid = Grid::from_rows(&["#####", "#####", ".....", "#####", "#####"]);
    let at = c(2, 2);
    let behind = c(1, 2);
    for roll in ROLLS {
        assert_eq!(
            wander_step(&grid, at, Some(behind), roll),
            Some(c(3, 2)),
            "roll {roll} turned round in a corridor"
        );
    }
}

#[test]
fn a_wanderer_in_a_dead_end_turns_round_rather_than_stopping() {
    let grid = Grid::from_rows(&["#####", "#####", "..###", "#####", "#####"]);
    let at = c(1, 2);
    let behind = c(0, 2);
    assert_eq!(wander_step(&grid, at, Some(behind), 0.5), Some(behind));
}

#[test]
fn a_wanderer_walled_in_has_nowhere_to_go() {
    let grid = Grid::from_rows(&["###", "#.#", "###"]);
    assert_eq!(wander_step(&grid, c(1, 1), None, 0.5), None);
}

#[test]
fn a_hunter_closes_on_its_target_in_an_open_room() {
    let grid = Grid::from_rows(&[".....", ".....", ".....", ".....", "....."]);
    let target = c(4, 4);
    let mut at = c(0, 0);
    for _ in 0..8 {
        if at == target {
            break;
        }
        let next = greedy_step(&grid, at, target, None, 0.5).expect("a way on");
        assert!(
            length_squared(next, target) < length_squared(at, target),
            "{at:?} to {next:?} did not close on {target:?}"
        );
        at = next;
    }
    assert_eq!(at, target, "never arrived");
}

#[test]
fn a_hunter_takes_the_bait_of_a_dead_end_where_an_assassin_would_not() {
    let grid = pocket();
    let at = c(2, 1);
    let target = c(2, 4);
    assert_eq!(
        greedy_step(&grid, at, target, None, 0.5),
        Some(c(2, 2)),
        "a hunter should have gone straight at it"
    );
    let route = find_path(&grid, at, target).expect("the long way round");
    assert_eq!(
        route.next_step(),
        Some(c(2, 0)),
        "an assassin should have gone the long way round"
    );
    assert_eq!(route.steps(), 9, "three cells apart, nine steps away");
}

#[test]
fn a_hunter_with_nowhere_better_to_go_wanders_instead_of_freezing() {
    let grid = pocket();
    let at = c(2, 2);
    let target = c(2, 4);
    let next = greedy_step(&grid, at, target, None, 0.5).expect("a way out of the pocket");
    assert_eq!(next, c(2, 1), "back down the way it came");
    assert!(grid.is_open(next));
    assert!(is_orthogonal_step(at, next));
}

#[test]
fn a_hunter_standing_on_its_target_still_has_somewhere_to_be() {
    let grid = Grid::from_rows(&["...", "...", "..."]);
    let at = c(1, 1);
    assert!(greedy_step(&grid, at, at, None, 0.5).is_some());
}

#[test]
fn steering_is_a_pure_function_of_what_it_is_given() {
    let maze = level_one(43);
    let target = *maze.grid.open().last().expect("an open cell");
    for cell in maze.grid.open().into_iter().step_by(11) {
        for roll in ROLLS {
            assert_eq!(
                wander_step(&maze.grid, cell, None, roll),
                wander_step(&maze.grid, cell, None, roll),
            );
            assert_eq!(
                greedy_step(&maze.grid, cell, target, None, roll),
                greedy_step(&maze.grid, cell, target, None, roll),
            );
        }
    }
}

#[test]
fn kinds_unlock_one_level_apart_in_difficulty_order() {
    let levels: Vec<u32> = DroneKind::ALL.iter().map(|k| k.unlock_level()).collect();
    assert_eq!(levels, vec![1, 2, 3, 4]);
    assert_eq!(spawn_weights(2), [2, 1, 0, 0]);
    assert_eq!(spawn_weights(5), [3, 3, 3, 2]);
    assert_eq!(spawn_weights(0), [0, 0, 0, 0]);
}

#[test]
fn only_the_assassin_pays_for_a_route_and_only_the_drone_fires_blind() {
    for kind in DroneKind::ALL {
        assert_eq!(kind.pursuit() == Pursuit::Path, kind == DroneKind::Assassin);
        assert_eq!(kind.trigger() == Trigger::Blind, kind == DroneKind::Drone);
    }
    assert_eq!(DroneKind::Hunter.pursuit(), Pursuit::Greedy);
    assert_eq!(DroneKind::Torpedo.health(), 20);
    assert_eq!(DroneKind::Assassin.health(), 40);
}

#[test]
fn a_greedy_tie_goes_to_the_first_neighbour_in_order() {
    let grid = Grid::from_rows(&["...", "...", "..."]);
    // From the centre to the top-right corner, +X and +Y close the same
    // distance; +X comes first.
    assert_eq!(greedy_choice(&grid, c(1, 1), c(2, 2)), Some(c(2, 1)));
    // Nothing is nearer than standing on the target.
    assert_eq!(greedy_choice(&grid, c(1, 1), c(1, 1)), None);
}

#[test]
fn a_drone_shoved_off_its_route_re_anchors() {
    let grid = Grid::from_rows(&["...", ".#.", "..."]);
    assert!(!needs_reanchor(&grid, c(0, 0), c(1, 0)));
    assert!(!needs_reanchor(&grid, c(0, 0), c(0, 0)));
    assert!(needs_reanchor(&grid, c(0, 0), c(2, 0)), "two cells away");
    assert!(needs_reanchor(&grid, c(0, 0), c(1, 1)), "a wall");
    assert!(needs_reanchor(&grid, c(i32::MIN, 0), c(i32::MAX, 0)));
}

#[test]
fn a_stale_plan_drops_cells_that_are_no_longer_one_step_away() {
    // Nearest last: the drone at (0, 0) would walk (5, 5) first.
    let mut route = vec![c(2, 0), c(1, 0), c(5, 5)];
    assert_eq!(next_planned(&mut route, c(0, 0)), Some(c(1, 0)));
    assert_eq!(route, vec![c(2, 0)]);
    assert_eq!(next_planned(&mut route, c(0, 0)), None);
    assert!(route.is_empty());
}

#[test]
fn walking_a_fresh_plan_retraces_its_route_one_pop_at_a_time() {
    let grid = Grid::from_rows(&["#####", "#...#", "#.#.#", "#...#", "#####"]);
    let (start, goal) = (c(1, 1), c(3, 3));
    let route = find_path(&grid, start, goal).expect("a route round the pillar");
    let mut plan = plan_of(&route);
    assert_eq!(plan.len(), route.cells.len() - 1);
    assert_eq!(plan.last().copied(), route.next_step());

    let mut at = start;
    let mut walked = vec![at];
    while let Some(next) = next_planned(&mut plan, at) {
        at = next;
        walked.push(at);
    }
    assert_eq!(walked, route.cells);
    assert_eq!(at, goal);
}

#[test]
fn a_route_that_is_only_its_start_plans_nothing() {
    let grid = Grid::from_rows(&["###", "#.#", "###"]);
    let route = find_path(&grid, c(1, 1), c(1, 1)).expect("standing on the goal");
    assert!(plan_of(&route).is_empty());
}

#[test]
fn shells_hit_harder_further_up_the_order() {
    let damage: Vec<i32> = DroneKind::ALL.iter().map(|k| k.shell_damage()).collect();
    assert_eq!(damage, vec![8, 10, 10, 12]);
}

#[test]
fn a_shoved_drone_re_anchors_on_its_own_cell_and_forgets_where_it_came_from() {
    let grid = Grid::from_rows(&["....", "....", "...."]);
    let waypoint = Waypoint { cell: c(3, 2), previous: Some(c(2, 2)) };
    assert_eq!(
        reanchored(&grid, waypoint, c(0, 0)),
        Waypoint { cell: c(0, 0), previous: None }
    );
    let near = Waypoint { cell: c(1, 1), previous: Some(c(1, 0)) };
    assert_eq!(reanchored(&grid, near, c(0, 0)), near);
}

#[test]
fn an_arrival_moves_the_waypoint_on_and_remembers_the_cell_left() {
    let waypoint = Waypoint { cell: c(1, 1), previous: None };
    assert_eq!(
        advanced(waypoint, Some(c(2, 1))),
        Waypoint { cell: c(2, 1), previous: Some(c(1, 1)) }
    );
    assert_eq!(advanced(waypoint, None), waypoint);
}

#[test]
fn an_assassin_follows_its_plan_then_closes_in_and_a_wanderer_leaves_it_to_chance() {
    let grid = Grid::from_rows(&[".....", ".....", "....."]);
    let from = c(2, 1);
    // A plan whose next step is one cell away is taken, and only it is popped.
    let mut plan = vec![c(4, 1), c(3, 1)];
    let (go, options) = pursue(&grid, Pursuit::Path, &mut plan, from, Some(c(0, 0)), None);
    assert_eq!(go, Some(c(3, 1)));
    assert!(options.is_empty());
    assert_eq!(plan, vec![c(4, 1)]);
    // Once the plan is spent the assassin closes on its quarry like a hunter.
    let (go, _) = pursue(&grid, Pursuit::Path, &mut plan, from, Some(c(0, 1)), None);
    assert_eq!(go, Some(c(1, 1)));
    assert!(plan.is_empty());
    // A wanderer never heads anywhere without a roll, and keeps its plan.
    let mut kept = vec![c(3, 1)];
    let (go, options) = pursue(&grid, Pursuit::Wander, &mut kept, from, Some(c(0, 1)), Some(c(1, 1)));
    assert_eq!(go, None);
    assert_eq!(options, wander_options(&grid, from, Some(c(1, 1))));
    assert_eq!(kept, vec![c(3, 1)]);
    // A hunter with nothing to chase wanders too.
    let (go, options) = pursue(&grid, Pursuit::Greedy, &mut kept, from, None, None);
    assert_eq!(go, None);
    assert_eq!(options.len(), 4);
}
