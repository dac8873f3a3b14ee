use std::collections::{HashMap, VecDeque};

use dinochrome::grid::{Cell, Coord, Grid};
use dinochrome::maze::{Maze, generate, normalized_span};
use dinochrome::path::{Route, find_path};

/// The largest grid the game plans to ask for, wide open.
const WORST: (i32, i32) = (65, 49);

fn c(x: i32, y: i32) -> Coord {
    Coord::new(x, y)
}

fn open_grid(cols: i32, rows: i32) -> Grid {
    let mut grid = Grid::solid(cols, rows);
    for y in 0..rows {
        for x in 0..cols {
            grid.set(c(x, y), Cell::Open);
        }
    }
    grid
}

/// A level-one maze: 33 by 25 at a wall density of 0.34.
fn level_one(seed: u64) -> Maze {
    let (w, h) = (normalized_span(33), normalized_span(25));
    let target = (0.34f32 * ((w - 2) * (h - 2)) as f32).round() as i32;
    generate(33, 25, target, seed)
}

fn manhattan(a: Coord, b: Coord) -> i32 {
    (a.x - b.x).abs() + (a.y - b.y).abs()
}

fn is_orthogonal_step(from: Coord, to: Coord) -> bool {
    manhattan(from, to) == 1
}

fn assert_walkable(grid: &Grid, route: &Route, start: Coord, goal: Coord) {
    assert_eq!(route.cells.first(), Some(&start), "route starts elsewhere");
    assert_eq!(route.cells.last(), Some(&goal), "route ends elsewhere");
    for pair in route.cells.windows(2) {
        assert!(
            is_orthogonal_step(pair[0], pair[1]),
            "{:?} to {:?} is not one orthogonal step",
            pair[0],
            pair[1]
        );
        assert!(grid.is_open(pair[1]), "route walks into {:?}", pair[1]);
    }
}

#[test]
fn a_cell_can_always_reach_itself_without_moving() {
    let grid = open_grid(9, 9);
    let at = c(4, 4);
    let route = find_path(&grid, at, at).expect("a cell reaches itself");
    assert_eq!(route.cells, vec![at]);
    assert_eq!(route.steps(), 0);
    assert_eq!(route.next_step(), None, "nowhere to go");
}

#[test]
fn an_open_field_is_crossed_in_a_straight_manhattan_line() {
    let grid = open_grid(WORST.0, WORST.1);
    let start = c(0, 0);
    let goal = c(WORST.0 - 1, WORST.1 - 1);
    let route = find_path(&grid, start, goal).expect("an open field is crossable");
    assert_eq!(route.steps() as i32, manhattan(start, goal));
    assert_walkable(&grid, &route, start, goal);
}

#[test]
fn a_walled_off_goal_has_no_route_rather_than_a_wrong_one() {
    let grid = Grid::from_rows(&["...#.", "...#.", "...#.", "...#.", "...#."]);
    assert_eq!(find_path(&grid, c(0, 0), c(4, 4)), None);
}

#[test]
fn neither_end_may_be_a_wall() {
    let grid = Grid::from_rows(&[".....", "..#..", "....."]);
    let open = c(0, 0);
    let wall = c(2, 1);
    assert_eq!(find_path(&grid, wall, open), None, "starting in a wall");
    assert_eq!(find_path(&grid, open, wall), None, "ending in a wall");
}

#[test]
fn nothing_outside_the_grid_is_routable() {
    let grid = open_grid(5, 5);
    let inside = c(2, 2);
    for outside in [c(-1, 2), c(5, 2), c(2, -7)] {
        assert_eq!(find_path(&grid, inside, outside), None, "to {outside:?}");
        assert_eq!(find_path(&grid, outside, inside), None, "from {outside:?}");
    }
}

#[test]
fn a_route_goes_the_long_way_round_when_that_is_the_only_way() {
    let grid = Grid::from_rows(&[".....", ".....", ".###.", ".#.#.", ".#.#.", "....."]);
    let start = c(2, 1);
    let goal = c(2, 4);
    let route = find_path(&grid, start, goal).expect("open at the bottom");
    assert_walkable(&grid, &route, start, goal);
    assert_eq!(route.steps(), 9, "the only way is round the outside");
}

#[test]
fn no_search_ever_settles_more_cells_than_the_maze_has() {
    let grid = open_grid(WORST.0, WORST.1);
    let open = grid.open_count();
    let corners = [
        c(0, 0),
        c(WORST.0 - 1, 0),
        c(0, WORST.1 - 1),
        c(WORST.0 - 1, WORST.1 - 1),
    ];
    for start in corners {
        for goal in corners {
            let route = find_path(&grid, start, goal).expect("an open field");
            assert!(
                route.expanded <= open,
                "{start:?} to {goal:?} settled {} of {open} cells",
                route.expanded
            );
        }
    }
}

#[test]
fn an_unreachable_goal_costs_no_more_than_the_component_it_is_hunted_in() {
    let grid = Grid::from_rows(&["....#....", "....#....", "....#...."]);
    assert_eq!(find_path(&grid, c(0, 0), c(8, 2)), None);
}

#[test]
fn every_pair_of_cells_in_a_generated_maze_is_routable() {
    let maze = level_one(19);
    let spawn = maze.spawn;
    for cell in maze.grid.open() {
        let route = find_path(&maze.grid, spawn, cell)
            .unwrap_or_else(|| panic!("no route from {spawn:?} to {cell:?}"));
        assert_walkable(&maze.grid, &route, spawn, cell);
    }
}

#[test]
fn a_route_is_the_same_one_every_time_it_is_asked_for() {
    let maze = level_one(23);
    let goal = *maze.grid.open().last().expect("an open cell");
    let first = find_path(&maze.grid, maze.spawn, goal).expect("connected");
    for _ in 0..4 {
        assert_eq!(find_path(&maze.grid, maze.spawn, goal), Some(first.clone()));
    }
}

#[test]
fn a_route_is_a_shortest_one_and_not_merely_a_working_one() {
    let maze = level_one(31);
    let grid = &maze.grid;
    let start = maze.spawn;
    let truth = breadth_first_costs(grid, start);
    for cell in grid.open().into_iter().step_by(7) {
        let route = find_path(grid, start, cell).expect("connected");
        assert_eq!(
            route.steps() as i32,
            truth[&cell],
            "route to {cell:?} is not shortest"
        );
    }
}

/// Step counts from `start` to every reachable cell, the slow honest way.
fn breadth_first_costs(grid: &Grid, start: Coord) -> HashMap<Coord, i32> {
    let mut costs = HashMap::new();
    let mut queue = VecDeque::from([start]);
    costs.insert(start, 0);
    while let Some(at) = queue.pop_front() {
        let next_cost = costs[&at] + 1;
        for next in grid.open_neighbours(at) {
            if let std::collections::hash_map::Entry::Vacant(slot) = costs.entry(next) {
                slot.insert(next_cost);
                queue.push_back(next);
            }
        }
    }
    costs
}

#[test]
fn the_route_found_is_as_short_as_the_route_back() {
    let maze = level_one(5);
    let cells = maze.grid.open();
    for &a in cells.iter().step_by(29) {
        for &b in cells.iter().step_by(31) {
            let there = find_path(&maze.grid, a, b).expect("connected");
            let back = find_path(&maze.grid, b, a).expect("connected");
            assert_eq!(there.steps(), back.steps(), "{a:?} and {b:?}");
        }
    }
}

#[test]
fn ties_on_estimate_and_remaining_go_to_the_lower_cell_index() {
    // From (0, 0) both (1, 0) and (0, 1) are one step nearer (1, 1) with the
    // same estimate; (1, 0) has the lower index, so it is settled first and
    // the route runs along the bottom row.
    let grid = open_grid(3, 3);
    let route = find_path(&grid, c(0, 0), c(1, 1)).expect("an open field");
    assert_eq!(route.cells, vec![c(0, 0), c(1, 0), c(1, 1)]);
    assert_eq!(route.expanded, 3);
}
