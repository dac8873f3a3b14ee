use dinochrome::grid::{Cell, Coord, Grid};

fn c(x: i32, y: i32) -> Coord {
    Coord::new(x, y)
}

/// Three disjoint open regions: a three-cell corridor along the bottom and
/// two single cells sealed off above it.
const SPLIT: &[&str] = &["#####", "#.#.#", "#####", "#...#", "#####"];

#[test]
fn from_rows_reads_the_first_row_as_the_top() {
    let grid = Grid::from_rows(&["..#", "###"]);
    assert_eq!(grid.width(), 3);
    assert_eq!(grid.height(), 2);
    assert!(grid.is_wall(c(0, 0)));
    assert!(grid.is_open(c(0, 1)));
    assert!(grid.is_wall(c(2, 1)));
}

#[test]
fn a_fresh_grid_is_entirely_wall() {
    let grid = Grid::solid(4, 3);
    assert_eq!(grid.open_count(), 0);
    assert_eq!(grid.walls().len(), 12);
}

#[test]
fn everything_outside_the_grid_is_wall() {
    let grid = Grid::from_rows(&["..", ".."]);
    assert_eq!(grid.open_count(), 4);
    for outside in [c(-1, 0), c(0, -1), c(2, 0), c(0, 2), c(-9000, 9000)] {
        assert!(grid.is_wall(outside), "{outside:?} should read as wall");
        assert!(!grid.contains(outside));
    }
}

#[test]
fn reachable_from_reaches_a_whole_component_and_no_more() {
    let grid = Grid::from_rows(SPLIT);
    assert_eq!(grid.reachable_from(c(2, 1)), 3);
    assert_eq!(grid.reachable_from(c(1, 3)), 1);
}

#[test]
fn reachable_from_never_steps_diagonally() {
    let grid = Grid::from_rows(&["####", "#.##", "##.#", "####"]);
    assert_eq!(grid.open_count(), 2);
    assert_eq!(grid.reachable_from(c(1, 2)), 1);
    assert!(!grid.is_connected());
}

#[test]
fn reachable_from_a_wall_is_nothing() {
    assert_eq!(Grid::from_rows(SPLIT).reachable_from(c(0, 0)), 0);
}

#[test]
fn is_connected_rejects_a_split_grid() {
    let grid = Grid::from_rows(SPLIT);
    assert_eq!(grid.open_count(), 5);
    assert!(!grid.is_connected());
}

#[test]
fn is_connected_accepts_a_single_component() {
    let grid = Grid::from_rows(&["#####", "#...#", "###.#", "#...#", "#####"]);
    assert!(grid.is_connected());
}

#[test]
fn a_grid_with_no_open_cells_is_vacuously_connected() {
    assert!(Grid::solid(3, 3).is_connected());
}

#[test]
fn has_open_neighbour_ignores_diagonals_and_the_cell_itself() {
    let grid = Grid::from_rows(&["#.#", "###", "#.#"]);
    assert!(grid.has_open_neighbour(c(1, 1)));
    assert!(!grid.has_open_neighbour(c(0, 1)));
}

#[test]
fn a_cell_reads_back_what_was_written_and_nothing_else_moves() {
    let mut grid = Grid::solid(3, 2);
    grid.set(c(2, 1), Cell::Open);
    assert_eq!(grid.get(c(2, 1)), Cell::Open);
    assert_eq!(grid.open_count(), 1);
    grid.set(c(2, 1), Cell::Wall);
    assert_eq!(grid.get(c(2, 1)), Cell::Wall);
    assert_eq!(grid.open_count(), 0);
}

#[test]
fn iteration_is_row_major_from_the_bottom_row_up() {
    let grid = Grid::from_rows(&["#.", ".#"]);
    let all = grid.iter();
    assert_eq!(
        all,
        vec![
            (c(0, 0), Cell::Open),
            (c(1, 0), Cell::Wall),
            (c(0, 1), Cell::Wall),
            (c(1, 1), Cell::Open),
        ]
    );
    assert_eq!(grid.open(), vec![c(0, 0), c(1, 1)]);
    assert_eq!(grid.walls(), vec![c(1, 0), c(0, 1)]);
}

#[test]
fn open_neighbours_come_in_the_fixed_order() {
    let grid = Grid::from_rows(&[".#.", "...", "..."]);
    // +X, -X, +Y, -Y; the cell above the centre is wall.
    assert_eq!(grid.open_neighbours(c(1, 1)), vec![c(2, 1), c(0, 1), c(1, 0)]);
    // Far outside the grid nothing is open, and nothing overflows.
    assert!(grid.open_neighbours(c(i32::MAX, i32::MIN)).is_empty());
}

#[test]
fn connectivity_is_a_single_walk_away_from_any_root() {
    // Opening a wall beside the sealed cell joins it to the corridor.
    let mut grid = Grid::from_rows(&["#####", "#.#.#", "#####", "#...#", "#####"]);
    grid.set(c(1, 2), Cell::Open);
    grid.set(c(3, 2), Cell::Open);
    assert!(grid.is_connected());
    assert_eq!(grid.reachable_from(c(1, 3)), grid.open_count());
}

#[test]
fn wall_arms_join_only_walls_inside_the_grid() {
    let grid = Grid::from_rows(&["..#..", ".##..", "....."]);
    // The elbow at (2, 1): wall to the left and above.
    let elbow = grid.wall_arms(c(2, 1));
    assert!(elbow.left && elbow.up && !elbow.right && !elbow.down);
    // The top of that arm touches the border: the void beyond does not join.
    let top = grid.wall_arms(c(2, 2));
    assert!(!top.up && top.down && !top.left && !top.right);
    // A full border ring joins along the edge but never outward.
    let ring = Grid::from_rows(&["###", "#.#", "###"]);
    let corner = ring.wall_arms(c(0, 0));
    assert!(corner.right && corner.up && !corner.left && !corner.down);
}

#[test]
fn a_lone_wall_is_a_post_with_no_arms() {
    let grid = Grid::from_rows(&["...", ".#.", "..."]);
    let post = grid.wall_arms(c(1, 1));
    assert!(!post.left && !post.right && !post.down && !post.up);
}

#[test]
fn a_straight_run_joins_along_its_length_only() {
    let grid = Grid::from_rows(&[".....", "#####", "....."]);
    let middle = grid.wall_arms(c(2, 1));
    assert!(middle.left && middle.right && !middle.down && !middle.up);
    let column = Grid::from_rows(&[".#.", ".#.", ".#."]);
    let mid = column.wall_arms(c(1, 1));
    assert!(mid.down && mid.up && !mid.left && !mid.right);
}

#[test]
fn a_crossing_joins_all_four_ways() {
    let grid = Grid::from_rows(&[".#.", "###", ".#."]);
    let cross = grid.wall_arms(c(1, 1));
    assert!(cross.left && cross.right && cross.down && cross.up);
}

#[test]
fn the_border_ring_never_joins_toward_the_void() {
    let grid = Grid::from_rows(&["#####", "#...#", "#...#", "#####"]);
    for x in 0..5 {
        for y in 0..4 {
            let cell = c(x, y);
            if grid.is_open(cell) {
                continue;
            }
            let arms = grid.wall_arms(cell);
            assert!(!(arms.left && x == 0) && !(arms.right && x == 4));
            assert!(!(arms.down && y == 0) && !(arms.up && y == 3));
        }
    }
}
