//! The maze grid: cell storage and orthogonal neighbourhoods.
//!
//! Cells are addressed by integer [`Coord`]s. Cell `(0, 0)` is the bottom-left
//! corner and the grid is stored row-major from the bottom row up. Anything
//! outside the grid reads back as [`Cell::Wall`], so every consumer treats the
//! world as bounded without an explicit bounds check.

use vstd::prelude::*;
use vstd::string::StringSliceAdditionalSpecFns;

use crate::walk::{
    all_reach_from, component_mask, component_size, connected, is_walk, lemma_adjacent_is_neighbour,
    lemma_closed_contains_reachable, lemma_connected_from_root, lemma_neighbour_adjacent,
    lemma_reachable_open, lemma_reachable_step, lemma_reachable_refl, neighbour, reachable,
    walk_between,
};

verus! {

/// The byte that marks a wall in a row map: ASCII `#`.
pub const WALL_BYTE: u8 = 35;

/// A grid coordinate, in cells.
#[derive(Clone, Copy, Debug, PartialEq, Eq, Hash, Structural)]
pub struct Coord {
    /// Column, counted from the left.
    pub x: i32,
    /// Row, counted from the bottom.
    pub y: i32,
}

impl Coord {
    /// The coordinate `(x, y)`.
    pub fn new(x: i32, y: i32) -> (c: Coord)
        ensures
            c.x == x,
            c.y == y,
    {
        Coord { x, y }
    }
}

/// What occupies a single grid cell.
#[derive(Clone, Copy, Debug, PartialEq, Eq, Structural)]
pub enum Cell {
    /// Solid. Blocks movement, shells and sight.
    Wall,
    /// Empty floor.
    Open,
}

impl Cell {
    /// True for [`Cell::Wall`].
    pub fn is_wall(self) -> (r: bool)
        ensures
            r == (self == Cell::Wall),
    {
        match self {
            Cell::Wall => true,
            Cell::Open => false,
        }
    }
}

/// Column offset of the `k`th orthogonal step: `+X`, `-X`, `+Y`, `-Y`.
pub open spec fn step_dx(k: int) -> int {
    if k == 0 {
        1
    } else if k == 1 {
        -1
    } else {
        0
    }
}

/// Row offset of the `k`th orthogonal step: `+X`, `-X`, `+Y`, `-Y`.
pub open spec fn step_dy(k: int) -> int {
    if k == 2 {
        1
    } else if k == 3 {
        -1
    } else {
        0
    }
}

/// True if `a` and `b` are one orthogonal step apart.
pub open spec fn adjacent(a: Coord, b: Coord) -> bool {
    exists|k: int| 0 <= k < 4 && #[trigger] step_dx(k) == b.x - a.x && step_dy(k) == b.y - a.y
}

/// `b` is one of the first `k` orthogonal steps (`+X`, `-X`, `+Y`, `-Y`)
/// away from `a`.
pub open spec fn adjacent_within(a: Coord, b: Coord, k: int) -> bool {
    exists|k2: int| 0 <= k2 < k && #[trigger] step_dx(k2) == b.x - a.x && step_dy(k2) == b.y - a.y
}

/// Number of `true` entries in `s`.
pub open spec fn count_true(s: Seq<bool>) -> nat
    decreases s.len(),
{
    if s.len() == 0 {
        0
    } else {
        count_true(s.drop_last()) + if s.last() {
            1nat
        } else {
            0nat
        }
    }
}

/// A count of marked entries never exceeds the number of entries.
pub proof fn lemma_count_true_bound(s: Seq<bool>)
    ensures
        count_true(s) <= s.len(),
    decreases s.len(),
{
    if s.len() > 0 {
        lemma_count_true_bound(s.drop_last());
    }
}

/// Marking an unmarked entry adds exactly one to the count.
pub proof fn lemma_count_true_mark(s: Seq<bool>, i: int)
    requires
        0 <= i < s.len(),
        !s[i],
    ensures
        count_true(s.update(i, true)) == count_true(s) + 1,
    decreases s.len(),
{
    let t = s.update(i, true);
    if i == s.len() - 1 {
        assert(t.drop_last() =~= s.drop_last());
    } else {
        assert(t.drop_last() =~= s.drop_last().update(i, true));
        lemma_count_true_mark(s.drop_last(), i);
    }
}

/// A sequence with no marks counts zero.
pub proof fn lemma_count_true_none(s: Seq<bool>)
    requires
        forall|i: int| 0 <= i < s.len() ==> !#[trigger] s[i],
    ensures
        count_true(s) == 0,
    decreases s.len(),
{
    if s.len() > 0 {
        lemma_count_true_none(s.drop_last());
    }
}

/// A sequence marked everywhere counts its length.
pub proof fn lemma_count_true_all(s: Seq<bool>)
    requires
        forall|i: int| 0 <= i < s.len() ==> #[trigger] s[i],
    ensures
        count_true(s) == s.len(),
    decreases s.len(),
{
    if s.len() > 0 {
        lemma_count_true_all(s.drop_last());
    }
}

/// The coordinates, in storage order, of the cells among the first `i`
/// storage indices of a grid `w` wide holding `cells` that are open (for
/// `want_open`) or not.
pub open spec fn cells_listed(w: int, cells: Seq<Cell>, want_open: bool, i: int) -> Seq<Coord>
    decreases i,
{
    if i <= 0 {
        Seq::empty()
    } else {
        let p = cells_listed(w, cells, want_open, i - 1);
        if (cells[i - 1] == Cell::Open) == want_open {
            p.push(Coord { x: ((i - 1) % w) as i32, y: ((i - 1) / w) as i32 })
        } else {
            p
        }
    }
}

/// A fresh vector of `n` unmarked entries.
pub fn unmarked(n: usize) -> (v: Vec<bool>)
    ensures
        v@.len() == n,
        forall|i: int| 0 <= i < n ==> !#[trigger] v@[i],
{
    let mut v: Vec<bool> = Vec::new();
    let mut i: usize = 0;
    while i < n
        invariant
            i <= n,
            v@.len() == i,
            forall|j: int| 0 <= j < i ==> !#[trigger] v@[j],
        decreases n - i,
    {
        v.push(false);
        i = i + 1;
    }
    v
}

/// If every mark of `a` is a mark of `b`, `a` counts no more than `b`, and the
/// counts agree only when the marks do.
pub proof fn lemma_count_true_subset(a: Seq<bool>, b: Seq<bool>)
    requires
        a.len() == b.len(),
        forall|i: int| 0 <= i < a.len() && #[trigger] a[i] ==> b[i],
    ensures
        count_true(a) <= count_true(b),
        count_true(a) == count_true(b) ==> a =~= b,
    decreases a.len(),
{
    if a.len() > 0 {
        let (a0, b0) = (a.drop_last(), b.drop_last());
        assert forall|i: int| 0 <= i < a0.len() && #[trigger] a0[i] implies b0[i] by {
            assert(a[i]);
        }
        lemma_count_true_subset(a0, b0);
        if count_true(a) == count_true(b) {
            assert(a.last() == b.last());
            assert(a0 =~= b0);
            assert forall|i: int| 0 <= i < a.len() implies a[i] == b[i] by {
                if i < a.len() - 1 {
                    assert(a0[i] == b0[i]);
                }
            }
        }
    }
}

/// A rectangular grid of open and wall cells.
///
/// Dimensions are `i32` because every consumer does signed coordinate
/// arithmetic; `width * height` always fits in an `i32`.
#[derive(Clone, Debug, PartialEq, Eq)]
pub struct Grid {
    width: i32,
    height: i32,
    cells: Vec<Cell>,
}

impl Grid {
    /// Width in cells.
    pub closed spec fn spec_width(&self) -> int {
        self.width as int
    }

    /// Height in cells.
    pub closed spec fn spec_height(&self) -> int {
        self.height as int
    }

    /// The cells, row-major from the bottom row up.
    pub closed spec fn spec_cells(&self) -> Seq<Cell> {
        self.cells@
    }

    /// The grid is non-empty, its cell count fits in an `i32`, and the storage
    /// holds exactly one entry per cell.
    pub open spec fn wf(&self) -> bool {
        &&& 0 < self.spec_width()
        &&& 0 < self.spec_height()
        &&& self.spec_width() * self.spec_height() <= i32::MAX
        &&& self.spec_cells().len() == self.spec_width() * self.spec_height()
    }

    /// Number of cells.
    pub open spec fn size(&self) -> int {
        self.spec_width() * self.spec_height()
    }

    /// True if `(x, y)` is inside the grid.
    pub open spec fn inside(&self, x: int, y: int) -> bool {
        0 <= x < self.spec_width() && 0 <= y < self.spec_height()
    }

    /// True if `c` is inside the grid.
    pub open spec fn in_grid(&self, c: Coord) -> bool {
        self.inside(c.x as int, c.y as int)
    }

    /// Storage index of `(x, y)`.
    pub open spec fn index_xy(&self, x: int, y: int) -> int {
        y * self.spec_width() + x
    }

    /// Storage index of `c`.
    pub open spec fn index_of(&self, c: Coord) -> int {
        self.index_xy(c.x as int, c.y as int)
    }

    /// The coordinate stored at index `i`.
    pub open spec fn coord_of(&self, i: int) -> Coord {
        Coord { x: (i % self.spec_width()) as i32, y: (i / self.spec_width()) as i32 }
    }

    /// What is at `(x, y)`: wall everywhere outside the grid.
    pub open spec fn cell_xy(&self, x: int, y: int) -> Cell {
        if self.inside(x, y) {
            self.spec_cells()[self.index_xy(x, y)]
        } else {
            Cell::Wall
        }
    }

    /// What is at `c`: wall everywhere outside the grid.
    pub open spec fn cell(&self, c: Coord) -> Cell {
        self.cell_xy(c.x as int, c.y as int)
    }

    /// True if `(x, y)` is an open cell of the grid.
    pub open spec fn open_xy(&self, x: int, y: int) -> bool {
        self.cell_xy(x, y) == Cell::Open
    }

    /// True if `c` is an open cell of the grid.
    pub open spec fn open_at(&self, c: Coord) -> bool {
        self.cell(c) == Cell::Open
    }

    /// Per storage index, whether that cell is open.
    pub open spec fn open_mask(&self) -> Seq<bool> {
        Seq::new(self.size() as nat, |i: int| self.spec_cells()[i] == Cell::Open)
    }

    /// Number of open cells.
    pub open spec fn open_total(&self) -> nat {
        count_true(self.open_mask())
    }

    /// True if `c` is inside the grid and sits on its outermost ring.
    pub open spec fn on_border(&self, c: Coord) -> bool {
        &&& self.in_grid(c)
        &&& (c.x == 0 || c.y == 0 || c.x == self.spec_width() - 1 || c.y == self.spec_height() - 1)
    }

    /// Every cell of `self` that is open is also open in `other`, and the two
    /// grids have the same dimensions.
    pub open spec fn opens_into(&self, other: &Grid) -> bool {
        &&& self.spec_width() == other.spec_width()
        &&& self.spec_height() == other.spec_height()
        &&& forall|c: Coord| #[trigger] self.open_at(c) ==> other.open_at(c)
    }

    /// Index arithmetic: an in-grid coordinate has an in-range index, and the
    /// index maps back to it.
    pub proof fn lemma_index(&self, x: int, y: int)
        requires
            self.wf(),
            self.inside(x, y),
        ensures
            0 <= self.index_xy(x, y) < self.size(),
            self.index_xy(x, y) % self.spec_width() == x,
            self.index_xy(x, y) / self.spec_width() == y,
    {
        let (w, h) = (self.spec_width(), self.spec_height());
        assert(0 <= y * w + x < w * h) by (nonlinear_arith)
            requires
                0 <= x < w,
                0 <= y < h,
        ;
        vstd::arithmetic::div_mod::lemma_fundamental_div_mod_converse(y * w + x, w, y, x);
    }

    /// Index arithmetic: an in-range index names an in-grid coordinate, whose
    /// index is the one it came from.
    pub proof fn lemma_coord(&self, i: int)
        requires
            self.wf(),
            0 <= i < self.size(),
        ensures
            self.in_grid(self.coord_of(i)),
            self.index_of(self.coord_of(i)) == i,
    {
        let (w, h) = (self.spec_width(), self.spec_height());
        vstd::arithmetic::div_mod::lemma_fundamental_div_mod(i, w);
        let (q, r) = (i / w, i % w);
        assert(0 <= r < w);
        assert(0 <= q < h) by (nonlinear_arith)
            requires
                0 <= r < w,
                0 <= i < w * h,
                i == w * q + r,
        ;
        assert(q * w == w * q) by (nonlinear_arith);
    }

    /// Two in-grid coordinates share a storage index only if they are equal.
    pub proof fn lemma_index_injective(&self, a: Coord, b: Coord)
        requires
            self.wf(),
            self.in_grid(a),
            self.in_grid(b),
            self.index_of(a) == self.index_of(b),
        ensures
            a == b,
    {
        self.lemma_index(a.x as int, a.y as int);
        self.lemma_index(b.x as int, b.y as int);
    }

    /// The open mask agrees with [`Grid::open_at`] on every coordinate.
    pub proof fn lemma_open_mask(&self, c: Coord)
        requires
            self.wf(),
            self.in_grid(c),
        ensures
            0 <= self.index_of(c) < self.size(),
            self.open_mask()[self.index_of(c)] == self.open_at(c),
    {
        self.lemma_index(c.x as int, c.y as int);
    }

    /// Creates a grid of solid wall, ready to be carved.
    pub fn solid(width: i32, height: i32) -> (grid: Grid)
        requires
            width > 0,
            height > 0,
            width * height <= i32::MAX,
        ensures
            grid.wf(),
            grid.spec_width() == width,
            grid.spec_height() == height,
            forall|c: Coord| !#[trigger] grid.open_at(c),
            grid.spec_cells() == Seq::new((width * height) as nat, |i: int| Cell::Wall),
    {
        let n = (width * height) as usize;
        let mut cells: Vec<Cell> = Vec::new();
        let mut i: usize = 0;
        while i < n
            invariant
                i <= n,
                cells@.len() == i,
                forall|j: int| 0 <= j < i ==> cells@[j] == Cell::Wall,
            decreases n - i,
        {
            cells.push(Cell::Wall);
            i = i + 1;
        }
        let grid = Grid { width, height, cells };
        proof {
            assert(grid.spec_cells() =~= Seq::new((width * height) as nat, |i: int| Cell::Wall));
            assert forall|c: Coord| !#[trigger] grid.open_at(c) by {
                if grid.in_grid(c) {
                    grid.lemma_index(c.x as int, c.y as int);
                }
            }
        }
        grid
    }

    /// True if the map `rows` (first row on top, `#` for wall) marks `c` as
    /// anything but wall.
    pub open spec fn marked_open(rows: Seq<&str>, c: Coord) -> bool {
        rows[rows.len() - 1 - c.y].spec_bytes()[c.x as int] != WALL_BYTE
    }

    /// Builds a grid from rows of `#` (wall) and anything else (open).
    ///
    /// The **first row is the top** of the maze, the highest `y`, so a grid
    /// written as string literals looks like what it draws. Every row must be
    /// non-empty and as long as the first.
    pub fn from_rows(rows: &[&str]) -> (grid: Grid)
        requires
            rows@.len() > 0,
            rows@[0].spec_bytes().len() > 0,
            forall|i: int|
                0 <= i < rows@.len() ==> #[trigger] rows@[i].spec_bytes().len()
                    == rows@[0].spec_bytes().len(),
            rows@.len() * rows@[0].spec_bytes().len() <= i32::MAX,
        ensures
            grid.wf(),
            grid.spec_width() == rows@[0].spec_bytes().len(),
            grid.spec_height() == rows@.len(),
            forall|c: Coord|
                grid.in_grid(c) ==> (#[trigger] grid.open_at(c) <==> Self::marked_open(rows@, c)),
    {
        let ghost (w, h) = (rows@[0].spec_bytes().len() as int, rows@.len() as int);
        proof {
            assert(w <= h * w && h <= h * w) by (nonlinear_arith)
                requires
                    w > 0,
                    h > 0,
            ;
        }
        let height = rows.len() as i32;
        let width = rows[0].len() as i32;
        let mut grid = Grid::solid(width, height);
        let mut from_top: usize = 0;
        while from_top < rows.len()
            invariant
                grid.wf(),
                grid.spec_width() == width == w,
                grid.spec_height() == height == h,
                rows@.len() == h,
                from_top <= h,
                forall|i: int| 0 <= i < rows@.len() ==> #[trigger] rows@[i].spec_bytes().len() == w,
                forall|c: Coord|
                    grid.in_grid(c) ==> (#[trigger] grid.open_at(c) <==> (h - 1 - c.y < from_top
                        && Self::marked_open(rows@, c))),
            decreases h - from_top,
        {
            let row = rows[from_top].as_bytes();
            let y = height - 1 - from_top as i32;
            let mut x: usize = 0;
            while x < row.len()
                invariant
                    grid.wf(),
                    grid.spec_width() == width == w,
                    grid.spec_height() == height == h,
                    rows@.len() == h,
                    from_top < h,
                    y == h - 1 - from_top,
                    row@ == rows@[from_top as int].spec_bytes(),
                    row@.len() == w,
                    x <= w,
                    forall|c: Coord|
                        grid.in_grid(c) ==> (#[trigger] grid.open_at(c) <==> ((h - 1 - c.y < from_top
                            || (h - 1 - c.y == from_top && c.x < x)) && Self::marked_open(rows@, c))),
                decreases w - x,
            {
                let ghost prior = grid;
                let here = Coord { x: x as i32, y };
                if row[x] != WALL_BYTE {
                    grid.set(here, Cell::Open);
                }
                proof {
                    assert(h - 1 - here.y == from_top);
                    assert(Self::marked_open(rows@, here) == (row@[x as int] != WALL_BYTE));
                    assert forall|c: Coord|
                        grid.in_grid(c) implies (#[trigger] grid.open_at(c) <==> ((h - 1 - c.y
                            < from_top || (h - 1 - c.y == from_top && c.x < x + 1))
                            && Self::marked_open(rows@, c))) by {
                        if c != here {
                            assert(prior.open_at(c) == grid.open_at(c));
                        }
                    }
                }
                x = x + 1;
            }
            from_top = from_top + 1;
        }
        grid
    }

    /// Width in cells.
    pub fn width(&self) -> (r: i32)
        ensures
            r == self.spec_width(),
    {
        self.width
    }

    /// Height in cells.
    pub fn height(&self) -> (r: i32)
        ensures
            r == self.spec_height(),
    {
        self.height
    }

    /// True if `cell` is inside the grid.
    pub fn contains(&self, cell: Coord) -> (r: bool)
        ensures
            r == self.in_grid(cell),
    {
        cell.x >= 0 && cell.y >= 0 && cell.x < self.width && cell.y < self.height
    }

    /// Storage index of an in-grid cell.
    pub(crate) fn index(&self, cell: Coord) -> (r: usize)
        requires
            self.wf(),
            self.in_grid(cell),
        ensures
            r == self.index_of(cell),
            r < self.size(),
    {
        proof {
            self.lemma_index(cell.x as int, cell.y as int);
        }
        (cell.y * self.width + cell.x) as usize
    }

    /// Reads a cell, treating everything outside the grid as solid wall.
    pub fn get(&self, cell: Coord) -> (r: Cell)
        requires
            self.wf(),
        ensures
            r == self.cell(cell),
    {
        if self.contains(cell) {
            self.cells[self.index(cell)]
        } else {
            Cell::Wall
        }
    }

    /// True if `cell` is a wall or lies outside the grid.
    pub fn is_wall(&self, cell: Coord) -> (r: bool)
        requires
            self.wf(),
        ensures
            r == !self.open_at(cell),
    {
        self.get(cell).is_wall()
    }

    /// True if `cell` is inside the grid and open.
    pub fn is_open(&self, cell: Coord) -> (r: bool)
        requires
            self.wf(),
        ensures
            r == self.open_at(cell),
    {
        !self.is_wall(cell)
    }

    /// Writes a cell. Writing outside the grid is a caller bug, so it is ruled
    /// out by the precondition.
    pub fn set(&mut self, cell: Coord, value: Cell)
        requires
            old(self).wf(),
            old(self).in_grid(cell),
        ensures
            final(self).wf(),
            final(self).spec_width() == old(self).spec_width(),
            final(self).spec_height() == old(self).spec_height(),
            final(self).spec_cells() == old(self).spec_cells().update(
                old(self).index_of(cell),
                value,
            ),
            final(self).cell(cell) == value,
            forall|c: Coord| c != cell ==> #[trigger] final(self).cell(c) == old(self).cell(c),
    {
        let index = self.index(cell);
        self.cells.set(index, value);
        proof {
            assert forall|c: Coord| c != cell implies #[trigger] self.cell(c) == old(self).cell(c) by {
                if self.in_grid(c) {
                    self.lemma_index(c.x as int, c.y as int);
                    if self.index_of(c) == self.index_of(cell) {
                        self.lemma_index_injective(c, cell);
                    }
                }
            }
        }
    }

    /// Number of open cells.
    pub fn open_count(&self) -> (r: usize)
        requires
            self.wf(),
        ensures
            r == self.open_total(),
    {
        let n = self.cells.len();
        let mut count: usize = 0;
        let mut i: usize = 0;
        while i < n
            invariant
                self.wf(),
                n == self.size(),
                i <= n,
                count == count_true(self.open_mask().take(i as int)),
                count <= i,
            decreases n - i,
        {
            let ghost m = self.open_mask();
            proof {
                assert(m.take(i + 1).drop_last() =~= m.take(i as int));
                lemma_count_true_bound(m.take(i as int));
            }
            if !self.cells[i].is_wall() {
                count = count + 1;
            }
            i = i + 1;
        }
        proof {
            assert(self.open_mask().take(n as int) =~= self.open_mask());
        }
        count
    }

    /// The `k`th orthogonal neighbour of an in-grid cell.
    pub fn neighbour_of(&self, cell: Coord, k: usize) -> (r: Coord)
        requires
            self.wf(),
            self.in_grid(cell),
            k < 4,
        ensures
            r == neighbour(cell, k as int),
            r.x == cell.x + step_dx(k as int),
            r.y == cell.y + step_dy(k as int),
    {
        proof {
            lemma_neighbour_adjacent(*self, cell, k as int);
        }
        if k == 0 {
            Coord { x: cell.x + 1, y: cell.y }
        } else if k == 1 {
            Coord { x: cell.x - 1, y: cell.y }
        } else if k == 2 {
            Coord { x: cell.x, y: cell.y + 1 }
        } else {
            Coord { x: cell.x, y: cell.y - 1 }
        }
    }

    /// Counts the open cells reachable from `start` by orthogonal steps.
    ///
    /// Zero if `start` is itself a wall.
    pub fn reachable_from(&self, start: Coord) -> (r: usize)
        requires
            self.wf(),
        ensures
            r == component_size(*self, start),
    {
        let ghost g = *self;
        if self.is_wall(start) {
            proof {
                assert forall|i: int| 0 <= i < g.size() implies !#[trigger] component_mask(
                    g,
                    start,
                )[i] by {
                    if reachable(g, start, g.coord_of(i)) {
                        lemma_reachable_open(g, start, g.coord_of(i));
                    }
                }
                lemma_count_true_none(component_mask(g, start));
            }
            return 0;
        }
        let n = self.cells.len();
        let mut seen = unmarked(n);
        let mut stack: Vec<Coord> = Vec::new();
        let first = self.index(start);
        proof {
            lemma_count_true_none(seen@);
            lemma_count_true_mark(seen@, first as int);
            lemma_reachable_refl(g, start);
        }
        seen.set(first, true);
        stack.push(start);
        proof {
            self.lemma_index(start.x as int, start.y as int);
            assert(g.coord_of(first as int) == start);
            assert forall|i: int| 0 <= i < n && #[trigger] seen@[i] implies reachable(
                g,
                start,
                g.coord_of(i),
            ) by {
                assert(i == first);
            }
            assert forall|c: Coord, k: int|
                self.in_grid(c) && seen@[self.index_of(c)] && !stack@.contains(c) && 0 <= k < 4
                    && #[trigger] self.open_at(neighbour(c, k)) implies seen@[self.index_of(
                neighbour(c, k),
            )] by {
                self.lemma_index(c.x as int, c.y as int);
                if self.index_of(c) == first {
                    self.lemma_index_injective(c, start);
                    assert(stack@[0] == c);
                }
            }
        }
        let mut count: usize = 0;
        while stack.len() > 0
            invariant
                g == *self,
                self.wf(),
                n == self.size(),
                seen@.len() == n,
                self.open_at(start),
                self.in_grid(start),
                seen@[self.index_of(start)],
                forall|i: int| 0 <= i < n && #[trigger] seen@[i] ==> reachable(g, start, g.coord_of(i)),
                forall|j: int|
                    0 <= j < stack@.len() ==> self.in_grid(#[trigger] stack@[j]) && seen@[self.index_of(
                        stack@[j],
                    )],
                forall|j1: int, j2: int|
                    0 <= j1 < j2 < stack@.len() ==> #[trigger] stack@[j1] != #[trigger] stack@[j2],
                forall|c: Coord, k: int|
                    self.in_grid(c) && seen@[self.index_of(c)] && !stack@.contains(c) && 0 <= k < 4
                        && #[trigger] self.open_at(neighbour(c, k)) ==> seen@[self.index_of(
                        neighbour(c, k),
                    )],
                count_true(seen@) == count + stack@.len(),
                count_true(seen@) <= n,
            decreases n - count,
        {
            let ghost before = seen@;
            let ghost full = stack@;
            let cell = stack.pop().unwrap();
            let ghost popped = stack@;
            proof {
                assert(full =~= popped.push(cell));
                assert forall|j: int| 0 <= j < popped.len() implies #[trigger] popped[j] != cell by {
                    assert(full[j] == popped[j]);
                    assert(full[full.len() - 1] == cell);
                }
                assert forall|c: Coord| c != cell && !popped.contains(c) implies !full.contains(c) by {
                    if full.contains(c) {
                        let j = choose|j: int| 0 <= j < full.len() && full[j] == c;
                        assert(popped[j] == c);
                    }
                }
                lemma_count_true_bound(seen@);
                self.lemma_index(cell.x as int, cell.y as int);
                self.lemma_index(start.x as int, start.y as int);
            }
            count = count + 1;
            let mut k: usize = 0;
            while k < 4
                invariant
                    g == *self,
                    self.wf(),
                    n == self.size(),
                    seen@.len() == n,
                    self.open_at(start),
                    self.in_grid(start),
                    self.in_grid(cell),
                    0 <= self.index_of(start) < n,
                    0 <= self.index_of(cell) < n,
                    seen@[self.index_of(start)],
                    seen@[self.index_of(cell)],
                    k <= 4,
                    forall|i: int| 0 <= i < n && before[i] ==> #[trigger] seen@[i],
                    forall|i: int|
                        0 <= i < n && #[trigger] seen@[i] ==> reachable(g, start, g.coord_of(i)),
                    forall|j: int|
                        0 <= j < stack@.len() ==> self.in_grid(#[trigger] stack@[j])
                            && seen@[self.index_of(stack@[j])],
                    forall|j1: int, j2: int|
                        0 <= j1 < j2 < stack@.len() ==> #[trigger] stack@[j1] != #[trigger] stack@[j2],
                    forall|j: int| 0 <= j < stack@.len() ==> #[trigger] stack@[j] != cell,
                    forall|c: Coord, k2: int|
                        c != cell && self.in_grid(c) && seen@[self.index_of(c)] && !stack@.contains(c)
                            && 0 <= k2 < 4 && #[trigger] self.open_at(neighbour(c, k2))
                            ==> seen@[self.index_of(neighbour(c, k2))],
                    forall|k2: int|
                        0 <= k2 < k && #[trigger] self.open_at(neighbour(cell, k2)) ==> seen@[self.index_of(
                            neighbour(cell, k2),
                        )],
                    count_true(seen@) == count + stack@.len(),
                    count_true(seen@) <= n,
                decreases 4 - k,
            {
                let next = self.neighbour_of(cell, k);
                if !self.is_wall(next) {
                    let index = self.index(next);
                    if !seen[index] {
                        proof {
                            lemma_count_true_mark(seen@, index as int);
                            lemma_count_true_bound(seen@.update(index as int, true));
                            self.lemma_index(next.x as int, next.y as int);
                            lemma_neighbour_adjacent(g, cell, k as int);
                            let ci = self.index_of(cell);
                            self.lemma_index(cell.x as int, cell.y as int);
                            assert(g.coord_of(ci) == cell);
                            assert(reachable(g, start, cell));
                            lemma_reachable_step(g, start, cell, next);
                            assert(g.coord_of(index as int) == next);
                            assert forall|j: int| 0 <= j < stack@.len() implies #[trigger] stack@[j]
                                != next by {
                                if stack@[j] == next {
                                    assert(seen@[self.index_of(stack@[j])]);
                                }
                            }
                        }
                        let ghost prior_seen = seen@;
                        let ghost prior_stack = stack@;
                        seen.set(index, true);
                        stack.push(next);
                        proof {
                            assert(stack@ =~= prior_stack.push(next));
                            assert(stack@[stack@.len() - 1] == next);
                            assert forall|j: int| 0 <= j < stack@.len() implies self.in_grid(
                                #[trigger] stack@[j],
                            ) && seen@[self.index_of(stack@[j])] by {
                                if j < prior_stack.len() {
                                    assert(stack@[j] == prior_stack[j]);
                                    self.lemma_index(stack@[j].x as int, stack@[j].y as int);
                                }
                            }
                            assert forall|c: Coord, k2: int|
                                c != cell && self.in_grid(c) && seen@[self.index_of(c)]
                                    && !stack@.contains(c) && 0 <= k2 < 4
                                    && #[trigger] self.open_at(neighbour(c, k2)) implies seen@[self.index_of(
                                neighbour(c, k2),
                            )] by {
                                assert(stack@.contains(next));
                                assert(c != next);
                                self.lemma_index(c.x as int, c.y as int);
                                if self.index_of(c) == index {
                                    self.lemma_index_injective(c, next);
                                }
                                assert(prior_seen[self.index_of(c)]);
                                if prior_stack.contains(c) {
                                    let j = choose|j: int| 0 <= j < prior_stack.len() && prior_stack[j] == c;
                                    assert(stack@[j] == c);
                                }
                                lemma_neighbour_adjacent(g, c, k2);
                                self.lemma_index(neighbour(c, k2).x as int, neighbour(c, k2).y as int);
                            }
                            assert forall|k2: int|
                                0 <= k2 < k && #[trigger] self.open_at(neighbour(cell, k2)) implies seen@[self.index_of(
                                neighbour(cell, k2),
                            )] by {
                                lemma_neighbour_adjacent(g, cell, k2);
                                self.lemma_index(neighbour(cell, k2).x as int, neighbour(cell, k2).y as int);
                            }
                        }
                    }
                }
                k = k + 1;
            }
        }
        proof {
            assert forall|i: int| 0 <= i < n implies #[trigger] seen@[i] == component_mask(g, start)[i] by {
                let c = g.coord_of(i);
                self.lemma_coord(i);
                if reachable(g, start, c) {
                    let p = choose|p: Seq<Coord>| #[trigger] walk_between(g, p, start, c);
                    lemma_closed_contains_reachable(g, seen@, start, p);
                }
            }
            assert(seen@ =~= component_mask(g, start));
        }
        count
    }

    /// The coordinate at storage index `i`.
    pub(crate) fn coord_at(&self, i: usize) -> (c: Coord)
        requires
            self.wf(),
            i < self.size(),
        ensures
            c == self.coord_of(i as int),
            self.in_grid(c),
            self.index_of(c) == i,
    {
        proof {
            self.lemma_coord(i as int);
        }
        let i = i as i32;
        Coord { x: i % self.width, y: i / self.width }
    }

    /// Every cell with what is in it, in row-major order from the bottom row
    /// up.
    pub fn iter(&self) -> (r: Vec<(Coord, Cell)>)
        requires
            self.wf(),
        ensures
            r@.len() == self.size(),
            forall|i: int|
                0 <= i < r@.len() ==> #[trigger] r@[i] == (self.coord_of(i), self.cell(self.coord_of(i))),
    {
        let n = self.cells.len();
        let mut r: Vec<(Coord, Cell)> = Vec::new();
        let mut i: usize = 0;
        while i < n
            invariant
                self.wf(),
                n == self.size(),
                i <= n,
                r@.len() == i,
                forall|j: int|
                    0 <= j < i ==> #[trigger] r@[j] == (self.coord_of(j), self.cell(self.coord_of(j))),
            decreases n - i,
        {
            let c = self.coord_at(i);
            r.push((c, self.get(c)));
            i = i + 1;
        }
        r
    }

    /// The in-grid cells that are walls (`want_open` false) or open (true), in
    /// storage order.
    fn cells_where(&self, want_open: bool) -> (r: Vec<Coord>)
        requires
            self.wf(),
        ensures
            self.lists_in_order(r@, want_open),
            r@ == cells_listed(self.spec_width(), self.spec_cells(), want_open, self.size()),
    {
        let n = self.cells.len();
        let mut r: Vec<Coord> = Vec::new();
        let mut i: usize = 0;
        while i < n
            invariant
                self.wf(),
                n == self.size(),
                i <= n,
                forall|j: int|
                    0 <= j < r@.len() ==> self.in_grid(#[trigger] r@[j]) && self.open_at(r@[j])
                        == want_open && self.index_of(r@[j]) < i,
                forall|j1: int, j2: int|
                    0 <= j1 < j2 < r@.len() ==> self.index_of(#[trigger] r@[j1]) < self.index_of(
                        #[trigger] r@[j2],
                    ),
                forall|c: Coord|
                    self.in_grid(c) && #[trigger] self.open_at(c) == want_open && self.index_of(c) < i
                        ==> r@.contains(c),
                r@ == cells_listed(self.spec_width(), self.spec_cells(), want_open, i as int),
            decreases n - i,
        {
            let c = self.coord_at(i);
            proof {
                self.lemma_open_mask(c);
            }
            let ghost prior = r@;
            if self.is_open(c) == want_open {
                r.push(c);
                proof {
                    assert(r@[r@.len() - 1] == c);
                    assert forall|d: Coord|
                        self.in_grid(d) && #[trigger] self.open_at(d) == want_open && self.index_of(d)
                            < i + 1 implies r@.contains(d) by {
                        if self.index_of(d) == i {
                            self.lemma_index_injective(c, d);
                        } else {
                            let j = choose|j: int| 0 <= j < prior.len() && prior[j] == d;
                            assert(r@[j] == d);
                        }
                    }
                }
            } else {
                proof {
                    assert forall|d: Coord|
                        self.in_grid(d) && #[trigger] self.open_at(d) == want_open && self.index_of(d)
                            < i + 1 implies r@.contains(d) by {
                        if self.index_of(d) == i {
                            self.lemma_index_injective(c, d);
                        }
                    }
                }
            }
            i = i + 1;
        }
        proof {
            assert forall|c: Coord| self.in_grid(c) && #[trigger] self.open_at(c) == want_open implies r@.contains(c) by {
                self.lemma_index(c.x as int, c.y as int);
            }
        }
        r
    }

    /// `s` lists, each once and in storage order, exactly the in-grid cells
    /// that are open (`want_open`) or walls (otherwise).
    pub open spec fn lists_in_order(&self, s: Seq<Coord>, want_open: bool) -> bool {
        &&& forall|j: int|
            0 <= j < s.len() ==> self.in_grid(#[trigger] s[j]) && self.open_at(s[j]) == want_open
        &&& forall|j1: int, j2: int|
            0 <= j1 < j2 < s.len() ==> self.index_of(#[trigger] s[j1]) < self.index_of(#[trigger] s[j2])
        &&& forall|c: Coord| self.in_grid(c) && #[trigger] self.open_at(c) == want_open ==> s.contains(c)
    }

    /// The coordinates of every wall cell, in row-major order from the bottom
    /// row up.
    pub fn walls(&self) -> (r: Vec<Coord>)
        requires
            self.wf(),
        ensures
            self.lists_in_order(r@, false),
            r@ == cells_listed(self.spec_width(), self.spec_cells(), false, self.size()),
    {
        self.cells_where(false)
    }

    /// The coordinates of every open cell, in row-major order from the bottom
    /// row up.
    pub fn open(&self) -> (r: Vec<Coord>)
        requires
            self.wf(),
        ensures
            self.lists_in_order(r@, true),
            r@ == cells_listed(self.spec_width(), self.spec_cells(), true, self.size()),
    {
        self.cells_where(true)
    }

    /// The `k`th orthogonal neighbour of `cell`, or `None` when it lies beyond
    /// the range of an `i32` (and so certainly outside the grid).
    fn try_step(cell: Coord, k: usize) -> (r: Option<Coord>)
        requires
            k < 4,
        ensures
            match r {
                Some(n) => n.x == cell.x + step_dx(k as int) && n.y == cell.y + step_dy(k as int),
                None => !(i32::MIN <= cell.x + step_dx(k as int) <= i32::MAX && i32::MIN <= cell.y
                    + step_dy(k as int) <= i32::MAX),
            },
    {
        if k == 0 {
            if cell.x < i32::MAX {
                Some(Coord { x: cell.x + 1, y: cell.y })
            } else {
                None
            }
        } else if k == 1 {
            if cell.x > i32::MIN {
                Some(Coord { x: cell.x - 1, y: cell.y })
            } else {
                None
            }
        } else if k == 2 {
            if cell.y < i32::MAX {
                Some(Coord { x: cell.x, y: cell.y + 1 })
            } else {
                None
            }
        } else {
            if cell.y > i32::MIN {
                Some(Coord { x: cell.x, y: cell.y - 1 })
            } else {
                None
            }
        }
    }

    /// The open orthogonal neighbours of `cell` among the first `k` steps
    /// (`+X`, `-X`, `+Y`, `-Y`), in that order.
    pub open spec fn open_neighbours_upto(&self, cell: Coord, k: int) -> Seq<Coord>
        decreases k,
    {
        if k <= 0 {
            Seq::empty()
        } else {
            let rest = self.open_neighbours_upto(cell, k - 1);
            let (x, y) = (cell.x + step_dx(k - 1), cell.y + step_dy(k - 1));
            if self.open_xy(x, y) {
                rest.push(Coord { x: x as i32, y: y as i32 })
            } else {
                rest
            }
        }
    }

    /// The open orthogonal neighbours of `cell`, in the order `+X`, `-X`,
    /// `+Y`, `-Y`.
    pub open spec fn open_neighbour_seq(&self, cell: Coord) -> Seq<Coord> {
        self.open_neighbours_upto(cell, 4)
    }

    /// The open orthogonal neighbours of `cell`, in the fixed order `+X`,
    /// `-X`, `+Y`, `-Y`.
    pub fn open_neighbours(&self, cell: Coord) -> (r: Vec<Coord>)
        requires
            self.wf(),
        ensures
            r@ == self.open_neighbour_seq(cell),
            r@.len() <= 4,
            forall|j: int|
                0 <= j < r@.len() ==> self.open_at(#[trigger] r@[j]) && adjacent(cell, r@[j]),
            forall|n: Coord| adjacent(cell, n) && #[trigger] self.open_at(n) ==> r@.contains(n),
    {
        let mut r: Vec<Coord> = Vec::new();
        let mut k: usize = 0;
        while k < 4
            invariant
                self.wf(),
                k <= 4,
                r@ == self.open_neighbours_upto(cell, k as int),
                r@.len() <= k,
                forall|j: int|
                    0 <= j < r@.len() ==> self.open_at(#[trigger] r@[j]) && adjacent(cell, r@[j]),
                forall|n: Coord|
                    adjacent_within(cell, n, k as int) && #[trigger] self.open_at(n) ==> r@.contains(n),
            decreases 4 - k,
        {
            let ghost prior = r@;
            match Self::try_step(cell, k) {
                Some(n) => {
                    if self.is_open(n) {
                        r.push(n);
                        proof {
                            assert(adjacent(cell, n)) by {
                                assert(step_dx(k as int) == n.x - cell.x);
                            }
                            assert(r@[r@.len() - 1] == n);
                            assert forall|m: Coord|
                                adjacent_within(cell, m, k + 1) && #[trigger] self.open_at(m) implies r@.contains(m) by {
                                let k2 = choose|k2: int| 0 <= k2 < k + 1 && #[trigger] step_dx(k2) == m.x - cell.x && step_dy(k2) == m.y - cell.y;
                                if k2 < k {
                                    assert(adjacent_within(cell, m, k as int));
                                    let j = choose|j: int| 0 <= j < prior.len() && prior[j] == m;
                                    assert(r@[j] == m);
                                }
                            }
                        }
                    }
                },
                None => {},
            }
            k = k + 1;
        }
        r
    }

    /// True if any orthogonal neighbour of `cell` is open.
    ///
    /// A wall with an open neighbour can always be opened without splitting
    /// the grid, because the new cell joins that neighbour's component.
    pub fn has_open_neighbour(&self, cell: Coord) -> (r: bool)
        requires
            self.wf(),
        ensures
            r == exists|n: Coord| adjacent(cell, n) && #[trigger] self.open_at(n),
    {
        let around = self.open_neighbours(cell);
        proof {
            if around@.len() > 0 {
                assert(self.open_at(around@[0]));
            }
        }
        around.len() > 0
    }

    /// True if every open cell can be reached from every other.
    ///
    /// A grid with no open cells at all is vacuously connected.
    pub fn is_connected(&self) -> (r: bool)
        requires
            self.wf(),
        ensures
            r == connected(*self),
    {
        let ghost g = *self;
        let open = self.open();
        if open.len() == 0 {
            proof {
                assert forall|a: Coord, b: Coord| g.open_at(a) && g.open_at(b) implies #[trigger] reachable(
                    g,
                    a,
                    b,
                ) by {
                    assert(open@.contains(a));
                }
            }
            return true;
        }
        let start = open[0];
        let reached = self.reachable_from(start);
        let total = self.open_count();
        proof {
            let (cm, om) = (component_mask(g, start), g.open_mask());
            assert forall|i: int| 0 <= i < cm.len() && #[trigger] cm[i] implies om[i] by {
                g.lemma_coord(i);
                lemma_reachable_open(g, start, g.coord_of(i));
                g.lemma_open_mask(g.coord_of(i));
            }
            lemma_count_true_subset(cm, om);
            if reached == total {
                assert forall|c: Coord| #[trigger] g.open_at(c) implies reachable(g, start, c) by {
                    g.lemma_open_mask(c);
                    let i = g.index_of(c);
                    assert(om[i]);
                    g.lemma_index(c.x as int, c.y as int);
                    assert(g.coord_of(i) == c);
                    assert(cm[i]);
                }
                lemma_connected_from_root(g, start);
            }
            if connected(g) {
                assert forall|i: int| 0 <= i < om.len() implies cm[i] == om[i] by {
                    g.lemma_coord(i);
                    g.lemma_open_mask(g.coord_of(i));
                    if om[i] {
                        assert(reachable(g, start, g.coord_of(i)));
                    }
                }
                assert(cm =~= om);
            }
        }
        reached == total
    }

    /// Opening a single wall cell adds exactly one to the open-cell count.
    pub proof fn lemma_open_one(&self, after: Grid, cell: Coord)
        requires
            self.wf(),
            after.wf(),
            after.spec_width() == self.spec_width(),
            after.spec_height() == self.spec_height(),
            self.in_grid(cell),
            !self.open_at(cell),
            after.open_at(cell),
            forall|c: Coord| c != cell ==> #[trigger] after.cell(c) == self.cell(c),
        ensures
            after.open_total() == self.open_total() + 1,
    {
        let (m0, m1) = (self.open_mask(), after.open_mask());
        self.lemma_open_mask(cell);
        after.lemma_open_mask(cell);
        let idx = self.index_of(cell);
        assert forall|i: int| 0 <= i < m1.len() implies m1[i] == m0.update(idx, true)[i] by {
            self.lemma_coord(i);
            self.lemma_open_mask(self.coord_of(i));
            after.lemma_open_mask(self.coord_of(i));
            if i != idx {
                assert(after.cell(self.coord_of(i)) == self.cell(self.coord_of(i)));
            }
        }
        assert(m1 =~= m0.update(idx, true));
        lemma_count_true_mark(m0, idx);
    }

    /// True if `(x, y)` is inside the grid and a wall: a neighbour a wall bar
    /// runs out to meet. The void beyond the border is solid, but a bar never
    /// runs into it.
    pub open spec fn joins_xy(&self, x: int, y: int) -> bool {
        self.inside(x, y) && !self.open_xy(x, y)
    }

    /// Which way the solid bar of wall cell `cell` runs out to its cell's edges.
    ///
    /// A wall is a thin bar through the cell centre. It runs out to the cell
    /// edge on each side whose neighbour is also a wall *inside* the grid, so
    /// that adjacent bars meet flush; a side facing open floor, or the void,
    /// stops at half a bar's thickness instead.
    pub fn wall_arms(&self, cell: Coord) -> (r: WallArms)
        requires
            self.wf(),
            self.in_grid(cell),
        ensures
            r.left == self.joins_xy(cell.x - 1, cell.y as int),
            r.right == self.joins_xy(cell.x + 1, cell.y as int),
            r.down == self.joins_xy(cell.x as int, cell.y - 1),
            r.up == self.joins_xy(cell.x as int, cell.y + 1),
    {
        proof {
            crate::walk::lemma_neighbour_adjacent(*self, cell, 0);
            crate::walk::lemma_neighbour_adjacent(*self, cell, 2);
        }
        let left = Coord { x: cell.x - 1, y: cell.y };
        let right = Coord { x: cell.x + 1, y: cell.y };
        let down = Coord { x: cell.x, y: cell.y - 1 };
        let up = Coord { x: cell.x, y: cell.y + 1 };
        WallArms {
            left: self.contains(left) && self.is_wall(left),
            right: self.contains(right) && self.is_wall(right),
            down: self.contains(down) && self.is_wall(down),
            up: self.contains(up) && self.is_wall(up),
        }
    }
}

/// Which of a wall cell's four sides its bar runs out to.
///
/// The solid part of a wall cell is the union of a horizontal bar and a
/// vertical bar crossing at the cell centre; these flags say how far each
/// reaches. A horizontal run is `left`/`right`, a vertical one `down`/`up`,
/// and a lone post has none set.
#[derive(Clone, Copy, Debug, PartialEq, Eq, Structural)]
pub struct WallArms {
    /// The bar reaches the cell's left edge.
    pub left: bool,
    /// The bar reaches the cell's right edge.
    pub right: bool,
    /// The bar reaches the cell's bottom edge.
    pub down: bool,
    /// The bar reaches the cell's top edge.
    pub up: bool,
}

} // verus!
