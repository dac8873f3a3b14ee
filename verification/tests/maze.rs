use dinochrome::grid::Coord;
use dinochrome::maze::{MIN_SPAN, Maze, generate, normalized_span};

/// How many seeds to sweep, when a property has to hold for every maze
/// rather than for one lucky one.
const SEEDS: u64 = 24;

/// Sizes the game will realistically ask for, smallest to largest.
const SIZES: [(i32, i32); 4] = [(5, 5), (21, 15), (33, 25), (65, 49)];

/// The first level: 33 by 25 at a wall density of 0.34.
const LEVEL_ONE: (i32, i32, f32) = (33, 25, 0.34);

/// A maze at a wall `density` of the interior, the way the front end asks
/// for one: the density is turned into a count of interior walls to keep.
fn maze(cols: i32, rows: i32, density: f32, seed: u64) -> Maze {
    let (w, h) = (normalized_span(cols), normalized_span(rows));
    let interior = (w - 2) * (h - 2);
    let target = (density.clamp(0.0, 1.0) * interior as f32).round() as i32;
    generate(cols, rows, target, seed)
}

/// Fraction of the interior cells that are wall.
fn wall_density(m: &Maze) -> f32 {
    let interior = m.interior_count();
    if interior == 0 {
        return 0.0;
    }
    m.interior_walls() as f32 / interior as f32
}

#[test]
fn dimensions_are_rounded_up_to_odd() {
    let m = maze(32, 24, 0.3, 1);
    assert_eq!((m.grid.width(), m.grid.height()), (33, 25));
    assert_eq!((normalized_span(32), normalized_span(24)), (33, 25));
}

#[test]
fn dimensions_below_the_minimum_are_raised_to_it() {
    let m = maze(0, 1, 0.3, 1);
    assert_eq!((m.grid.width(), m.grid.height()), (MIN_SPAN, MIN_SPAN));
}

#[test]
fn odd_dimensions_are_left_alone() {
    let m = maze(33, 25, 0.3, 1);
    assert_eq!((m.grid.width(), m.grid.height()), (33, 25));
}

#[test]
fn every_maze_is_fully_connected() {
    for seed in 0..SEEDS {
        for (cols, rows) in SIZES {
            for density in [0.0, 0.1, 0.25, 0.34, 0.45, 1.0] {
                let m = maze(cols, rows, density, seed);
                assert!(
                    m.grid.is_connected(),
                    "{cols}×{rows} density {density} seed {seed} is split into pieces"
                );
            }
        }
    }
}

#[test]
fn the_border_is_always_solid() {
    for seed in 0..SEEDS {
        let m = maze(33, 25, 0.0, seed);
        let (w, h) = (m.grid.width(), m.grid.height());
        for x in 0..w {
            assert!(m.grid.is_wall(Coord::new(x, 0)), "seed {seed} bottom edge");
            assert!(m.grid.is_wall(Coord::new(x, h - 1)), "seed {seed} top edge");
        }
        for y in 0..h {
            assert!(m.grid.is_wall(Coord::new(0, y)), "seed {seed} left edge");
            assert!(m.grid.is_wall(Coord::new(w - 1, y)), "seed {seed} right edge");
        }
    }
}

#[test]
fn the_carve_reaches_every_corridor_cell() {
    for seed in 0..SEEDS {
        let m = maze(33, 25, 1.0, seed);
        let nodes = 16 * 12;
        assert_eq!(
            m.grid.open_count(),
            nodes + nodes - 1,
            "seed {seed} did not carve a spanning tree"
        );
    }
}

#[test]
fn density_is_honoured_within_five_percent() {
    for seed in 0..8 {
        for (cols, rows) in [(21, 15), (33, 25), (65, 49)] {
            for density in [0.05, 0.15, 0.25, 0.35, 0.4] {
                let m = maze(cols, rows, density, seed);
                let achieved = wall_density(&m);
                assert!(
                    (achieved - density).abs() <= 0.05,
                    "{cols}×{rows} seed {seed}: asked for {density}, got {achieved}"
                );
            }
        }
    }
}

#[test]
fn a_density_no_maze_can_reach_yields_the_densest_maze_instead() {
    for seed in 0..8 {
        let perfect = maze(33, 25, 1.0, seed);
        let requested = maze(33, 25, 0.9, seed);
        assert_eq!(
            requested.grid, perfect.grid,
            "seed {seed}: an unreachable density should thin nothing"
        );
        let ceiling = wall_density(&perfect);
        assert!(
            (0.44..0.48).contains(&ceiling),
            "seed {seed}: perfect-maze density {ceiling} is outside the documented range"
        );
    }
}

#[test]
fn zero_density_opens_the_whole_interior() {
    let m = maze(33, 25, 0.0, 7);
    assert_eq!(wall_density(&m), 0.0);
    let border = 33 * 25 - 31 * 23;
    assert_eq!(m.grid.walls().len(), border as usize);
}

#[test]
fn thinning_only_ever_opens_cells() {
    for seed in 0..8 {
        let dense = maze(33, 25, 0.4, seed);
        let sparse = maze(33, 25, 0.15, seed);
        for (cell, _) in dense.grid.iter() {
            if dense.grid.is_open(cell) {
                assert!(
                    sparse.grid.is_open(cell),
                    "seed {seed}: {cell:?} closed when the maze got sparser"
                );
            }
        }
    }
}

#[test]
fn the_same_seed_reproduces_the_maze_exactly() {
    for seed in 0..SEEDS {
        let (cols, rows, density) = LEVEL_ONE;
        let first = maze(cols, rows, density, seed);
        let second = maze(cols, rows, density, seed);
        assert_eq!(first.grid, second.grid, "seed {seed} grid");
        assert_eq!(first.spawn, second.spawn, "seed {seed} spawn");
    }
}

#[test]
fn different_seeds_produce_different_mazes() {
    let (cols, rows, density) = LEVEL_ONE;
    let a = maze(cols, rows, density, 1);
    let b = maze(cols, rows, density, 2);
    assert_ne!(a.grid, b.grid);
}

#[test]
fn the_spawn_cell_is_always_open() {
    for seed in 0..SEEDS {
        for (cols, rows) in SIZES {
            let m = maze(cols, rows, 0.34, seed);
            assert!(
                m.grid.is_open(m.spawn),
                "{cols}×{rows} seed {seed} spawned in a wall at {:?}",
                m.spawn
            );
        }
    }
}

#[test]
fn the_smallest_maze_is_a_single_open_cell() {
    let m = maze(MIN_SPAN, MIN_SPAN, 1.0, 3);
    assert_eq!(m.grid.open_count(), 1);
    assert_eq!(m.spawn, Coord::new(1, 1));
}

#[test]
fn a_maze_remembers_its_seed_and_counts_its_interior() {
    let m = generate(33, 25, 200, 99);
    assert_eq!(m.seed, 99);
    assert_eq!(m.interior_count(), 31 * 23);
    assert_eq!(m.interior_walls(), 200);
}

#[test]
fn spans_round_up_to_odd_and_never_below_the_minimum() {
    assert_eq!(normalized_span(i32::MIN), MIN_SPAN);
    assert_eq!(normalized_span(3), 3);
    assert_eq!(normalized_span(4), 5);
    assert_eq!(normalized_span(i32::MAX), i32::MAX);
}

#[test]
fn a_wall_count_below_the_perfect_maze_is_met_exactly() {
    for seed in 0..SEEDS {
        for target in [0, 1, 60, 107] {
            assert_eq!(generate(21, 15, target, seed).interior_walls(), target);
        }
    }
}

#[test]
fn a_negative_wall_count_opens_the_whole_interior() {
    let m = generate(9, 7, -5, 3);
    assert_eq!(m.interior_walls(), 0);
    assert_eq!(m.grid.open_count(), 7 * 5);
}

#[test]
fn a_wall_count_at_or_above_the_perfect_maze_leaves_the_perfect_maze() {
    // 21 by 15 has a 10 by 7 corridor lattice: the perfect maze opens one cell
    // per node and one per tree edge, 139 of the 247 interior cells.
    for target in [108, 109, 500] {
        let m = generate(21, 15, target, 5);
        assert_eq!(m.grid.open_count(), 2 * 70 - 1);
        assert_eq!(m.interior_walls(), 247 - 139);
    }
}

#[test]
fn the_perfect_maze_never_opens_a_cell_between_four_corridors() {
    for seed in 0..SEEDS {
        let m = generate(21, 15, 500, seed);
        for cell in m.grid.open() {
            assert!(cell.x % 2 == 1 || cell.y % 2 == 1, "{cell:?} seed {seed}");
        }
    }
}

#[test]
fn a_lower_wall_count_opens_every_cell_a_higher_one_did() {
    for seed in 0..8 {
        let mut previous = generate(21, 15, 108, seed);
        for target in [90, 60, 30, 0, -1] {
            let next = generate(21, 15, target, seed);
            for cell in previous.grid.open() {
                assert!(next.grid.is_open(cell), "seed {seed} target {target}: {cell:?} closed");
            }
            previous = next;
        }
    }
}
